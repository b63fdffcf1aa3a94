use std::str::FromStr;

use nautilus_accounting::accounts::{
    account_state_layout, fill_xrate_price_type, order_margin_kind, order_price, position_for_fill, single_currency_pnl,
    xrate_price_type, xrate_to_base_request, AccountKind, Flow, MarginAccumulator, MarginKind, OrderSide,
    OrderSideSpecified,
};
use nautilus_accounting::decimal::Dec;
use nautilus_accounting::xrate::PriceType;
use rust_decimal::Decimal;

fn d(s: &str) -> Dec {
    let x = Decimal::from_str(s).unwrap();
    Dec { mantissa: x.mantissa(), scale: x.scale() }
}

fn value(x: Dec) -> Decimal {
    Decimal::from_i128_with_scale(x.mantissa, x.scale)
}

#[test]
fn test_price_types_for_sides() {
    assert_eq!(xrate_price_type(OrderSideSpecified::Sell), PriceType::Bid);
    assert_eq!(xrate_price_type(OrderSideSpecified::Buy), PriceType::Ask);
    assert_eq!(fill_xrate_price_type(OrderSide::Sell), PriceType::Bid);
    assert_eq!(fill_xrate_price_type(OrderSide::Buy), PriceType::Ask);
    assert_eq!(fill_xrate_price_type(OrderSide::NoOrderSide), PriceType::Ask);
    assert_eq!(xrate_to_base_request(false, OrderSideSpecified::Sell), None);
    assert_eq!(xrate_to_base_request(true, OrderSideSpecified::Sell), Some(PriceType::Bid));
}

#[test]
fn test_order_price_and_kinds() {
    assert_eq!(order_price(Some(1), Some(2)), Some(1));
    assert_eq!(order_price(None, Some(2)), Some(2));
    assert_eq!(order_price::<i32>(None, None), None);
    assert_eq!(order_margin_kind(AccountKind::Cash), MarginKind::BalanceLocked);
    assert_eq!(order_margin_kind(AccountKind::Margin), MarginKind::InitialMargin);
    let l = account_state_layout(AccountKind::Margin);
    assert_eq!(l.reported_kind, AccountKind::Cash);
    assert!(!l.lists_balances && l.lists_margins);
    let l = account_state_layout(AccountKind::Cash);
    assert!(l.lists_balances && !l.lists_margins);
}

#[test]
fn test_single_currency_pnl() {
    assert_eq!(single_currency_pnl(Some(&vec![5, 6]), 0), 5);
    assert_eq!(single_currency_pnl(Some(&vec![]), 0), 0);
    assert_eq!(single_currency_pnl::<i32>(None, 0), 0);
}

#[test]
fn test_admits() {
    let locked = MarginAccumulator::new(MarginKind::BalanceLocked, None);
    assert!(locked.admits(true, true, true, false));
    assert!(locked.admits(true, true, false, true));
    assert!(!locked.admits(true, true, false, false));
    let init = MarginAccumulator::new(MarginKind::InitialMargin, None);
    assert!(!init.admits(true, false, true, true));
    assert!(init.admits(true, true, true, false));
    let maint = MarginAccumulator::new(MarginKind::MaintenanceMargin, None);
    assert!(maint.admits(true, true, false, false));
    assert!(!maint.admits(true, false, true, true));
}

#[test]
fn test_total_without_base_currency() {
    let mut acc = MarginAccumulator::new(MarginKind::InitialMargin, None);
    assert_eq!(acc.xrate_request(OrderSideSpecified::Buy), None);
    assert_eq!(acc.add(d("1.25"), None), Some(Flow::Added));
    assert_eq!(acc.add(d("2.505"), None), Some(Flow::Added));
    assert_eq!(value(acc.total), Decimal::from_str("3.755").unwrap());
    assert!(!acc.in_base);
}

#[test]
fn test_total_with_base_currency_converts_and_rounds() {
    let mut acc = MarginAccumulator::new(MarginKind::MaintenanceMargin, Some(2));
    assert_eq!(acc.xrate_request(OrderSideSpecified::Sell), Some(PriceType::Bid));
    // 10.005 * 1.5 = 15.0075, rounded half to even to 15.01
    assert_eq!(acc.add(d("10.005"), Some(d("1.5"))), Some(Flow::Added));
    assert_eq!(value(acc.total), Decimal::from_str("15.01").unwrap());
    assert!(acc.in_base);
    assert_eq!(acc.xrate_request(OrderSideSpecified::Buy), None);
    // 1.001 * 1.5 = 1.5015, rounded half to even to 1.50
    assert_eq!(acc.add(d("1.001"), None), Some(Flow::Added));
    assert_eq!(value(acc.total), Decimal::from_str("16.51").unwrap());
}

#[test]
fn test_rounding_half_to_even() {
    let mut acc = MarginAccumulator::new(MarginKind::BalanceLocked, Some(1));
    assert_eq!(acc.add(d("0.25"), Some(d("1"))), Some(Flow::Added));
    assert_eq!(value(acc.total), Decimal::from_str("0.2").unwrap());
    assert_eq!(acc.add(d("0.35"), None), Some(Flow::Added));
    assert_eq!(value(acc.total), Decimal::from_str("0.6").unwrap());
}

#[test]
fn test_zero_rate_abandons_maintenance_margin() {
    let mut acc = MarginAccumulator::new(MarginKind::MaintenanceMargin, Some(2));
    assert_eq!(acc.add(d("5"), Some(Dec::zero())), Some(Flow::Abandoned));
}

#[test]
fn test_zero_rate_skips_initial_margin_and_asks_again() {
    let mut acc = MarginAccumulator::new(MarginKind::InitialMargin, Some(2));
    assert_eq!(acc.add(d("5"), Some(Dec::zero())), Some(Flow::Skipped));
    assert!(acc.total.is_zero());
    assert!(acc.in_base);
    assert_eq!(acc.xrate_request(OrderSideSpecified::Buy), Some(PriceType::Ask));
    assert_eq!(acc.add(d("4"), Some(d("0.5"))), Some(Flow::Added));
    assert_eq!(value(acc.total), Decimal::from(2));
}

#[test]
fn test_zero_rate_locks_nothing() {
    let mut acc = MarginAccumulator::new(MarginKind::BalanceLocked, Some(2));
    assert_eq!(acc.add(d("5"), Some(Dec::zero())), Some(Flow::Added));
    assert!(acc.total.is_zero());
    assert_eq!(acc.xrate_request(OrderSideSpecified::Sell), Some(PriceType::Bid));
}

#[test]
fn test_product_overflow_fails() {
    let mut acc = MarginAccumulator::new(MarginKind::BalanceLocked, Some(2));
    let big = d("79228162514264337593543950335");
    assert_eq!(acc.add(big, Some(d("10"))), None);
}

#[test]
fn test_position_for_fill() {
    assert_eq!(position_for_fill(Some(3), Some(4)), 3);
    assert_eq!(position_for_fill(Some(3), None), 3);
    assert_eq!(position_for_fill(None, Some(4)), 4);
}

#[test]
fn test_total_currency() {
    let mut acc = MarginAccumulator::new(MarginKind::BalanceLocked, Some(2));
    assert_eq!(acc.total_currency("USD", Some("EUR")), "USD");
    assert_eq!(acc.add(d("1"), Some(d("2"))), Some(Flow::Added));
    assert_eq!(acc.total_currency("USD", Some("EUR")), "EUR");
    let acc = MarginAccumulator::new(MarginKind::BalanceLocked, None);
    assert_eq!(acc.total_currency("USD", None), "USD");
}
