use std::str::FromStr;

use nautilus_accounting::decimal::Dec;
use nautilus_accounting::xrate::{get_exchange_rate, mid_quotes_of, Currency, PriceType, RateTable};
use rust_decimal::Decimal;

fn d(s: &str) -> Dec {
    let x = Decimal::from_str(s).unwrap();
    Dec { mantissa: x.mantissa(), scale: x.scale() }
}

fn value(x: Dec) -> Decimal {
    Decimal::from_i128_with_scale(x.mantissa, x.scale)
}

fn cur(code: &str) -> Currency {
    Currency { code: code.to_string(), precision: 2 }
}

fn quotes(v: &[(&str, &str)]) -> Vec<(String, Dec)> {
    v.iter().map(|(s, p)| (s.to_string(), d(p))).collect()
}

fn chars(s: &str) -> Vec<char> {
    s.chars().collect()
}

fn rate(from: &str, to: &str, pt: PriceType, bid: &[(&str, &str)], ask: &[(&str, &str)]) -> Option<Decimal> {
    get_exchange_rate(&cur(from), &cur(to), pt, &quotes(bid), &quotes(ask)).map(value)
}

#[test]
fn test_same_currency_rate_is_one() {
    let r = rate("USD", "USD", PriceType::Bid, &[("AUD/USD", "0.8")], &[("AUD/USD", "0.81")]);
    assert_eq!(r, Some(Decimal::ONE));
}

#[test]
fn test_same_currency_rate_is_one_for_any_price_type() {
    // The symbols are not split when the currencies are the same.
    let r = rate("EUR", "EUR", PriceType::Last, &[("X", "1")], &[("X", "2")]);
    assert_eq!(r, Some(Decimal::ONE));
}

#[test]
fn test_direct_bid_quote() {
    let r = rate("AUD", "USD", PriceType::Bid, &[("AUD/USD", "0.80000")], &[("AUD/USD", "0.80010")]);
    assert_eq!(r, Some(Decimal::from_str("0.80000").unwrap()));
}

#[test]
fn test_direct_ask_quote() {
    let r = rate("AUD", "USD", PriceType::Ask, &[("AUD/USD", "0.80000")], &[("AUD/USD", "0.80010")]);
    assert_eq!(r, Some(Decimal::from_str("0.80010").unwrap()));
}

#[test]
fn test_direct_mid_quote() {
    let r = rate("AUD", "USD", PriceType::Mid, &[("AUD/USD", "0.80000")], &[("AUD/USD", "0.80010")]);
    assert_eq!(r, Some(Decimal::from_str("0.80005").unwrap()));
}

#[test]
fn test_mid_without_matching_ask_uses_bid() {
    let r = rate("AUD", "USD", PriceType::Mid, &[("AUD/USD", "0.8")], &[("GBP/USD", "1.3")]);
    assert_eq!(r, Some(Decimal::from_str("0.8").unwrap()));
}

#[test]
fn test_inverse_quote() {
    let r = rate("USD", "AUD", PriceType::Bid, &[("AUD/USD", "0.8")], &[("AUD/USD", "0.8")]);
    assert_eq!(r, Some(Decimal::from_str("1.25").unwrap()));
}

#[test]
fn test_cross_rate_through_common_currency() {
    let bid = [("AUD/USD", "0.8"), ("USD/JPY", "110")];
    let r = rate("AUD", "JPY", PriceType::Bid, &bid, &bid);
    let expected = Decimal::from_str("0.8").unwrap() / (Decimal::ONE / Decimal::from(110));
    assert_eq!(r, Some(expected));
    assert!((expected - Decimal::from(88)).abs() < Decimal::from_str("0.000001").unwrap());
}

#[test]
fn test_cross_rate_reverse_direction() {
    let bid = [("AUD/USD", "0.8"), ("USD/JPY", "110")];
    let r = rate("JPY", "AUD", PriceType::Bid, &bid, &bid);
    // The pair (AUD, JPY) comes first: through USD, the rate from JPY to AUD is the rate of
    // JPY to USD over the rate of AUD to USD; then through JPY it becomes one over the rate
    // from AUD to JPY.
    let jpy_usd = Decimal::ONE / Decimal::from(110);
    let aud_jpy = Decimal::from_str("0.8").unwrap() / jpy_usd;
    let expected = Decimal::ONE / aud_jpy;
    assert_eq!(r, Some(expected));
}

#[test]
fn test_unknown_currency_rate_is_zero() {
    let r = rate("AUD", "CHF", PriceType::Bid, &[("AUD/USD", "0.8")], &[("AUD/USD", "0.8")]);
    assert_eq!(r, Some(Decimal::ZERO));
}

#[test]
fn test_unrelated_pairs_rate_is_zero() {
    let bid = [("AUD/USD", "0.8"), ("EUR/CHF", "0.95")];
    let r = rate("AUD", "CHF", PriceType::Ask, &bid, &bid);
    assert_eq!(r, Some(Decimal::ZERO));
}

#[test]
fn test_zero_quote_fails_the_inverse() {
    let r = rate("USD", "AUD", PriceType::Bid, &[("AUD/USD", "0")], &[("AUD/USD", "0")]);
    assert_eq!(r, None);
}

#[test]
fn test_later_quote_of_a_pair_wins() {
    let bid = [("AUD/USD", "0.8"), ("AUD/USD/X", "0.9")];
    let r = rate("AUD", "USD", PriceType::Bid, &bid, &bid);
    assert_eq!(r, Some(Decimal::from_str("0.9").unwrap()));
}

#[test]
fn test_table_from_quotes() {
    let qs: Vec<(Vec<char>, Dec)> = vec![(chars("AUD/USD"), d("0.8")), (chars("USD/JPY"), d("110"))];
    let t = RateTable::from_quotes(&qs);
    assert_eq!(t.codes, vec![chars("AUD"), chars("USD"), chars("JPY")]);
    assert_eq!(t.rate(&chars("AUD"), &chars("USD")).map(value), Some(Decimal::from_str("0.8").unwrap()));
    assert_eq!(t.rate(&chars("USD"), &chars("AUD")), None);
    assert_eq!(t.rate(&chars("JPY"), &chars("JPY")).map(value), Some(Decimal::ONE));
    let t = t.with_inverses().unwrap();
    assert_eq!(t.rate(&chars("USD"), &chars("AUD")).map(value), Some(Decimal::from_str("1.25").unwrap()));
    assert_eq!(t.rate(&chars("AUD"), &chars("JPY")), None);
    let t = t.with_cross_rates().unwrap();
    assert!(t.rate(&chars("AUD"), &chars("JPY")).is_some());
}

#[test]
fn test_mid_quotes() {
    let bid: Vec<(Vec<char>, Dec)> = vec![(chars("AUD/USD"), d("1")), (chars("EUR/USD"), d("1.1"))];
    let ask: Vec<(Vec<char>, Dec)> = vec![(chars("EUR/USD"), d("1.2")), (chars("AUD/USD"), d("2"))];
    let mid = mid_quotes_of(&bid, &ask).unwrap();
    assert_eq!(mid.len(), 2);
    assert_eq!(mid[0].0, chars("AUD/USD"));
    assert_eq!(value(mid[0].1), Decimal::from_str("1.5").unwrap());
    assert_eq!(mid[1].0, chars("EUR/USD"));
    assert_eq!(value(mid[1].1), Decimal::from_str("1.15").unwrap());
}

#[test]
fn test_mid_sum_overflow_fails() {
    let big = "79228162514264337593543950335";
    let r = rate("AUD", "USD", PriceType::Mid, &[("AUD/USD", big)], &[("AUD/USD", big)]);
    assert_eq!(r, None);
}

#[test]
fn test_positive_quotes_give_nonnegative_cross_rate() {
    let bid = [("AUD/USD", "0.8"), ("USD/JPY", "110"), ("EUR/JPY", "160")];
    let r = rate("AUD", "EUR", PriceType::Bid, &bid, &bid).unwrap();
    assert!(r > Decimal::ZERO);
}

#[test]
fn test_unlinked_currencies_rate_is_zero() {
    let bid = [("AUD/USD", "0.8"), ("EUR/CHF", "0.95")];
    let r = rate("AUD", "EUR", PriceType::Bid, &bid, &bid);
    assert_eq!(r, Some(Decimal::ZERO));
}
