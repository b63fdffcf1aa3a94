//! The decisions of account balance and margin updates: which exchange rate an update needs,
//! which orders and positions count, and how their amounts add up in the account's currency.
//!
//! The amounts of single orders and positions, the exchange rates, and the account states
//! come from the caller; this module decides what to ask for and combines the answers.

use vstd::prelude::*;
use crate::decimal::{checked_add, checked_mul, dec_add, dec_mul, dec_round_dp, lemma_round_dp_wf, round_dp, spec_zero, Dec};
use crate::xrate::PriceType;

verus! {

/// The side of an order, where it may be unspecified.
#[derive(Clone, Copy, Debug, PartialEq, Eq, Structural)]
pub enum OrderSide {
    NoOrderSide,
    Buy,
    Sell,
}

/// The side of an order that has one.
#[derive(Clone, Copy, Debug, PartialEq, Eq, Structural)]
pub enum OrderSideSpecified {
    Buy,
    Sell,
}

/// The kind of an account.
#[derive(Clone, Copy, Debug, PartialEq, Eq, Structural)]
pub enum AccountKind {
    Cash,
    Margin,
}

/// The price type of the exchange rate to the base currency for an order side: a sell
/// converts at the bid, a buy at the ask.
pub open spec fn side_price_type(side: OrderSideSpecified) -> PriceType {
    match side {
        OrderSideSpecified::Sell => PriceType::Bid,
        OrderSideSpecified::Buy => PriceType::Ask,
    }
}

/// The price type of the exchange rate to the base currency for an order side.
pub fn xrate_price_type(side: OrderSideSpecified) -> (r: PriceType)
    ensures
        r == side_price_type(side),
{
    match side {
        OrderSideSpecified::Sell => PriceType::Bid,
        OrderSideSpecified::Buy => PriceType::Ask,
    }
}

/// The price type of the exchange rate for the commission and profit of a fill: the bid for
/// a sell, the ask otherwise.
pub fn fill_xrate_price_type(side: OrderSide) -> (r: PriceType)
    ensures
        r == (if side == OrderSide::Sell { PriceType::Bid } else { PriceType::Ask }),
{
    if side == OrderSide::Sell {
        PriceType::Bid
    } else {
        PriceType::Ask
    }
}

/// The exchange rate that converting to the account's base currency needs: none (the rate
/// is one) for an account without a base currency, else the rate from the settlement
/// currency to the base currency at the price type of the side.
pub fn xrate_to_base_request(has_base_currency: bool, side: OrderSideSpecified) -> (r: Option<PriceType>)
    ensures
        r == (if has_base_currency { Some(side_price_type(side)) } else { None }),
{
    if has_base_currency {
        Some(xrate_price_type(side))
    } else {
        None
    }
}

/// The price an open order locks or margins at: its limit price, or else its trigger price.
pub fn order_price<T: Copy>(price: Option<T>, trigger_price: Option<T>) -> (r: Option<T>)
    ensures
        r == (if price is Some { price } else { trigger_price }),
{
    if price.is_some() {
        price
    } else {
        trigger_price
    }
}

/// What an update of the open orders of an account totals: the balance locked by the orders
/// of a cash account, the initial margin of those of a margin account.
pub fn order_margin_kind(account: AccountKind) -> (r: MarginKind)
    ensures
        r == (match account {
            AccountKind::Cash => MarginKind::BalanceLocked,
            AccountKind::Margin => MarginKind::InitialMargin,
        }),
{
    match account {
        AccountKind::Cash => MarginKind::BalanceLocked,
        AccountKind::Margin => MarginKind::InitialMargin,
    }
}

/// What an account state reports: its account type (cash in both cases) and whether it
/// lists the account's balances (a cash account) or its margins (a margin account).
#[derive(Clone, Copy, Debug, PartialEq, Eq, Structural)]
pub struct StateLayout {
    pub reported_kind: AccountKind,
    pub lists_balances: bool,
    pub lists_margins: bool,
}

/// The layout of the state generated for an account.
pub fn account_state_layout(account: AccountKind) -> (r: StateLayout)
    ensures
        r.reported_kind == AccountKind::Cash,
        r.lists_balances == (account == AccountKind::Cash),
        r.lists_margins == (account == AccountKind::Margin),
{
    match account {
        AccountKind::Cash => StateLayout { reported_kind: AccountKind::Cash, lists_balances: true, lists_margins: false },
        AccountKind::Margin => StateLayout { reported_kind: AccountKind::Cash, lists_balances: false, lists_margins: true },
    }
}

/// The position a fill books against: the fill's own position, or else the first open
/// position of its instrument.
pub fn position_for_fill<T: Copy>(fill_position: Option<T>, first_open_position: Option<T>) -> (r: T)
    requires
        fill_position is Some || first_open_position is Some,
    ensures
        r == (if fill_position is Some { fill_position->0 } else { first_open_position->0 }),
{
    match fill_position {
        Some(p) => p,
        None => first_open_position.unwrap(),
    }
}

/// The profit or loss that a fill on an account with a base currency books: the first of
/// the computed ones, or `zero` where there is none or they could not be computed.
pub fn single_currency_pnl<T: Copy>(pnls: Option<&Vec<T>>, zero: T) -> (r: T)
    ensures
        r == (match pnls {
            Some(v) => if v.len() > 0 { v@[0] } else { zero },
            None => zero,
        }),
{
    match pnls {
        Some(v) => if v.len() > 0 { v[0] } else { zero },
        None => zero,
    }
}

/// What an aggregation over orders or positions totals.
#[derive(Clone, Copy, Debug, PartialEq, Eq, Structural)]
pub enum MarginKind {
    /// The balance locked by the open orders of a cash account.
    BalanceLocked,
    /// The initial margin of the open orders of a margin account.
    InitialMargin,
    /// The maintenance margin of the open positions of a margin account.
    MaintenanceMargin,
}

/// What became of one amount added to an aggregation.
#[derive(Clone, Copy, Debug, PartialEq, Eq, Structural)]
pub enum Flow {
    /// The amount, converted where the account has a base currency, was added.
    Added,
    /// The amount was left out: the exchange rate to the base currency was zero.
    Skipped,
    /// The whole update is abandoned: the exchange rate to the base currency was zero.
    Abandoned,
}

/// Whether an order or position counts towards an aggregation: for a balance lock, an order
/// with a limit or trigger price; for an initial margin, an open order with one; for a
/// maintenance margin, an open position.
pub open spec fn admits_spec(kind: MarginKind, is_open: bool, has_price: bool, has_trigger_price: bool) -> bool {
    match kind {
        MarginKind::BalanceLocked => has_price || has_trigger_price,
        MarginKind::InitialMargin => is_open && (has_price || has_trigger_price),
        MarginKind::MaintenanceMargin => is_open,
    }
}

/// The running total of the amounts of the orders or positions of an update, in the
/// instrument's settlement currency, or converted into the account's base currency.
#[derive(Clone, Copy, Debug, PartialEq, Eq, Structural)]
pub struct MarginAccumulator {
    pub kind: MarginKind,
    /// The decimal places of the account's base currency, where it has one.
    pub base_precision: Option<u8>,
    /// The total so far.
    pub total: Dec,
    /// The exchange rate to the base currency last obtained; zero before the first.
    pub base_xrate: Dec,
    /// Whether the total is in the base currency rather than the settlement currency.
    pub in_base: bool,
}

impl MarginAccumulator {
    /// The total and the rate are well-formed decimals.
    pub open spec fn wf(self) -> bool {
        self.total.wf() && self.base_xrate.wf()
    }

    /// Whether the next amount needs an exchange rate first: the account has a base currency
    /// and no nonzero rate has been obtained.
    pub open spec fn needs_xrate(self) -> bool {
        self.base_precision is Some && self.base_xrate.mantissa == 0
    }

    /// The accumulator after adding `amount`, given the rate obtained for it where one was
    /// needed, with what became of the amount; `None` where a decimal product or sum
    /// overflows.
    pub open spec fn add_spec(self, amount: Dec, xrate: Option<Dec>) -> Option<(MarginAccumulator, Flow)> {
        match self.base_precision {
            None => match dec_add(self.total, amount) {
                Some(t) => Some((MarginAccumulator { total: t, ..self }, Flow::Added)),
                None => None,
            },
            Some(p) => {
                let s1 = if self.needs_xrate() {
                    MarginAccumulator { base_xrate: xrate->0, in_base: true, ..self }
                } else {
                    self
                };
                if self.needs_xrate() && s1.base_xrate.mantissa == 0 && self.kind == MarginKind::MaintenanceMargin {
                    Some((s1, Flow::Abandoned))
                } else if self.needs_xrate() && s1.base_xrate.mantissa == 0 && self.kind == MarginKind::InitialMargin {
                    Some((s1, Flow::Skipped))
                } else {
                    match dec_mul(amount, s1.base_xrate) {
                        None => None,
                        Some(x) => match dec_add(s1.total, dec_round_dp(x, p as u32)) {
                            Some(t) => Some((MarginAccumulator { total: t, ..s1 }, Flow::Added)),
                            None => None,
                        },
                    }
                }
            },
        }
    }

    /// An empty aggregation for an account with a base currency of the given precision, or
    /// without one.
    pub fn new(kind: MarginKind, base_precision: Option<u8>) -> (r: MarginAccumulator)
        ensures
            r == (MarginAccumulator { kind, base_precision, total: spec_zero(), base_xrate: spec_zero(), in_base: false }),
            r.wf(),
    {
        MarginAccumulator { kind, base_precision, total: Dec::zero(), base_xrate: Dec::zero(), in_base: false }
    }

    /// Whether an order or position counts towards the aggregation. It must be for the
    /// instrument of the update, and an order of a balance lock must be open.
    pub fn admits(&self, for_instrument: bool, is_open: bool, has_price: bool, has_trigger_price: bool) -> (r: bool)
        requires
            for_instrument,
            self.kind == MarginKind::BalanceLocked ==> is_open,
        ensures
            r == admits_spec(self.kind, is_open, has_price, has_trigger_price),
    {
        match self.kind {
            MarginKind::BalanceLocked => has_price || has_trigger_price,
            MarginKind::InitialMargin => is_open && (has_price || has_trigger_price),
            MarginKind::MaintenanceMargin => is_open,
        }
    }

    /// The exchange rate that adding the amount of an order or position of the given side
    /// needs first, if any: from the settlement to the base currency at the side's price type.
    pub fn xrate_request(&self, side: OrderSideSpecified) -> (r: Option<PriceType>)
        ensures
            r == (if self.needs_xrate() { Some(side_price_type(side)) } else { None }),
    {
        if self.base_precision.is_some() && self.base_xrate.is_zero() {
            Some(xrate_price_type(side))
        } else {
            None
        }
    }

    /// The currency of the total: the base currency once the total turned to it, else the
    /// settlement currency.
    pub fn total_currency<T: Copy>(&self, settlement: T, base: Option<T>) -> (r: T)
        ensures
            r == (if self.in_base && base is Some { base->0 } else { settlement }),
    {
        match base {
            Some(b) => if self.in_base { b } else { settlement },
            None => settlement,
        }
    }

    /// Adds the amount of an order or position. Where the account has a base currency and no
    /// nonzero rate was obtained yet, `xrate` is the rate obtained for this amount: the total
    /// turns to the base currency, and a zero rate abandons a maintenance margin update and
    /// skips the amount of an initial margin. With a base currency, the amount is multiplied
    /// by the rate and rounded half to even to the base currency's decimal places.
    /// `None` where a product or a sum overflows.
    pub fn add(&mut self, amount: Dec, xrate: Option<Dec>) -> (r: Option<Flow>)
        requires
            old(self).wf(),
            amount.wf(),
            xrate is Some <==> old(self).needs_xrate(),
            xrate matches Some(x) ==> x.wf(),
        ensures
            match old(self).add_spec(amount, xrate) {
                Some((s, f)) => r == Some(f) && *final(self) == s && final(self).wf(),
                None => r is None,
            },
    {
        match self.base_precision {
            None => match checked_add(self.total, amount) {
                Some(t) => {
                    self.total = t;
                    Some(Flow::Added)
                },
                None => None,
            },
            Some(p) => {
                let needed = self.base_xrate.is_zero();
                if needed {
                    match xrate {
                        Some(x) => {
                            self.base_xrate = x;
                            self.in_base = true;
                        },
                        None => {},
                    }
                    if self.base_xrate.is_zero() {
                        match self.kind {
                            MarginKind::MaintenanceMargin => return Some(Flow::Abandoned),
                            MarginKind::InitialMargin => return Some(Flow::Skipped),
                            MarginKind::BalanceLocked => {},
                        }
                    }
                }
                match checked_mul(amount, self.base_xrate) {
                    None => None,
                    Some(x) => {
                        let rounded = round_dp(x, p as u32);
                        proof { lemma_round_dp_wf(x, p as u32); }
                        match checked_add(self.total, rounded) {
                            Some(t) => {
                                self.total = t;
                                Some(Flow::Added)
                            },
                            None => None,
                        }
                    },
                }
            },
        }
    }
}


/// The exchange rate to the base currency is obtained at most once per update: once an
/// amount is added with a nonzero rate, no further rate is requested, and later additions
/// keep that rate.
pub proof fn law_base_rate_obtained_once(s: MarginAccumulator, amount: Dec, xrate: Option<Dec>)
    requires
        xrate is Some <==> s.needs_xrate(),
        xrate matches Some(x) ==> x.mantissa != 0,
    ensures
        s.add_spec(amount, xrate) matches Some((s2, f)) ==> !s2.needs_xrate()
            && s2.base_xrate == (if s.needs_xrate() { xrate->0 } else { s.base_xrate }),
{
}

/// Without a base currency, every amount is added as it is, with no rate and no rounding.
pub proof fn law_no_base_currency_adds_exactly(s: MarginAccumulator, amount: Dec)
    requires
        s.base_precision is None,
    ensures
        !s.needs_xrate(),
        s.add_spec(amount, None) == (match dec_add(s.total, amount) {
            Some(t) => Some((MarginAccumulator { total: t, ..s }, Flow::Added)),
            None => None,
        }),
{
}

/// A zero rate to the base currency abandons a maintenance margin update, leaves the amount
/// of an initial margin out, and adds nothing to a balance lock.
pub proof fn law_zero_base_rate(s: MarginAccumulator, amount: Dec, z: Dec)
    requires
        s.needs_xrate(),
        z.mantissa == 0,
    ensures
        s.kind == MarginKind::MaintenanceMargin ==> (s.add_spec(amount, Some(z)) matches Some((_, f))
            && f == Flow::Abandoned),
        s.kind == MarginKind::InitialMargin ==> (s.add_spec(amount, Some(z)) matches Some((t, f))
            && f == Flow::Skipped && t.total == s.total),
        s.kind == MarginKind::BalanceLocked ==> s.add_spec(amount, Some(z)) == (match dec_mul(amount, z) {
            None => None,
            Some(x) => match dec_add(s.total, dec_round_dp(x, s.base_precision->0 as u32)) {
                Some(t) => Some((MarginAccumulator { total: t, base_xrate: z, in_base: true, ..s }, Flow::Added)),
                None => None,
            },
        }),
{
}


/// The accumulator after adding the amounts in order, each with the rate given for it;
/// `None` where a product or a sum overflows.
pub open spec fn run_adds(s: MarginAccumulator, amounts: Seq<Dec>, xrates: Seq<Option<Dec>>) -> Option<MarginAccumulator>
    decreases amounts.len(),
{
    if amounts.len() == 0 {
        Some(s)
    } else {
        match run_adds(s, amounts.drop_last(), xrates.drop_last()) {
            Some(s1) => match s1.add_spec(amounts.last(), xrates.last()) {
                Some((s2, _)) => Some(s2),
                None => None,
            },
            None => None,
        }
    }
}

/// The sum of the amounts, added in order from zero; `None` where a sum overflows.
pub open spec fn sum_of(amounts: Seq<Dec>) -> Option<Dec>
    decreases amounts.len(),
{
    if amounts.len() == 0 {
        Some(spec_zero())
    } else {
        match sum_of(amounts.drop_last()) {
            Some(t) => dec_add(t, amounts.last()),
            None => None,
        }
    }
}

/// The sum of the amounts, each multiplied by the rate `x` and rounded half to even to `p`
/// decimal places, added in order from zero; `None` where a product or a sum overflows.
pub open spec fn converted_sum_of(amounts: Seq<Dec>, x: Dec, p: u8) -> Option<Dec>
    decreases amounts.len(),
{
    if amounts.len() == 0 {
        Some(spec_zero())
    } else {
        match converted_sum_of(amounts.drop_last(), x, p) {
            Some(t) => match dec_mul(amounts.last(), x) {
                Some(y) => dec_add(t, dec_round_dp(y, p as u32)),
                None => None,
            },
            None => None,
        }
    }
}

/// No rate for any of `n` amounts.
pub open spec fn no_rates(n: nat) -> Seq<Option<Dec>> {
    Seq::new(n, |k: int| None::<Dec>)
}

/// The rate `x` for the first of `n` amounts, none for the others.
pub open spec fn first_rate_only(n: nat, x: Dec) -> Seq<Option<Dec>> {
    Seq::new(n, |k: int| if k == 0 { Some(x) } else { None::<Dec> })
}

/// Over an account without a base currency, the total of an update is the plain sum of the
/// admitted amounts.
pub proof fn law_total_without_base_currency(kind: MarginKind, amounts: Seq<Dec>)
    ensures
        run_adds(
            MarginAccumulator { kind, base_precision: None, total: spec_zero(), base_xrate: spec_zero(), in_base: false },
            amounts,
            no_rates(amounts.len()),
        ) == (match sum_of(amounts) {
            Some(t) => Some(MarginAccumulator { kind, base_precision: None, total: t, base_xrate: spec_zero(), in_base: false }),
            None => None,
        }),
    decreases amounts.len(),
{
    if amounts.len() > 0 {
        assert(no_rates(amounts.len()).drop_last() =~= no_rates(amounts.drop_last().len()));
        law_total_without_base_currency(kind, amounts.drop_last());
    }
}

/// Over an account with a base currency of `p` decimal places, where the rate obtained for
/// the first admitted amount is a nonzero `x`, the total of an update is the sum of the
/// admitted amounts, each converted at `x` and rounded to `p` decimal places, in the base
/// currency.
pub proof fn law_total_with_base_currency(kind: MarginKind, p: u8, amounts: Seq<Dec>, x: Dec)
    requires
        x.mantissa != 0,
        amounts.len() > 0,
    ensures
        run_adds(
            MarginAccumulator { kind, base_precision: Some(p), total: spec_zero(), base_xrate: spec_zero(), in_base: false },
            amounts,
            first_rate_only(amounts.len(), x),
        ) == (match converted_sum_of(amounts, x, p) {
            Some(t) => Some(MarginAccumulator { kind, base_precision: Some(p), total: t, base_xrate: x, in_base: true }),
            None => None,
        }),
    decreases amounts.len(),
{
    let n = amounts.len();
    assert(first_rate_only(n, x).drop_last() =~= first_rate_only((n - 1) as nat, x));
    assert(first_rate_only(n, x).last() == (if n - 1 == 0 { Some(x) } else { None::<Dec> }));
    let s0 = MarginAccumulator { kind, base_precision: Some(p), total: spec_zero(), base_xrate: spec_zero(), in_base: false };
    let rates = first_rate_only(n, x);
    if n > 1 {
        law_total_with_base_currency(kind, p, amounts.drop_last(), x);
        match converted_sum_of(amounts.drop_last(), x, p) {
            Some(t) => {
                let s1 = MarginAccumulator { kind, base_precision: Some(p), total: t, base_xrate: x, in_base: true };
                assert(run_adds(s0, amounts.drop_last(), rates.drop_last()) == Some(s1));
                assert(!s1.needs_xrate());
                assert(rates.last() is None);
            },
            None => {
                assert(run_adds(s0, amounts.drop_last(), rates.drop_last()) is None);
            },
        }
    } else {
        assert(amounts.drop_last().len() == 0);
        assert(run_adds(s0, amounts.drop_last(), rates.drop_last()) == Some(s0));
        assert(rates.last() == Some(x));
        assert(converted_sum_of(amounts.drop_last(), x, p) == Some(spec_zero()));
    }
}


/// Which orders and positions count: for an initial margin, an open order counts exactly
/// when it has a limit price or a trigger price (an open stop order with only a trigger
/// price counts, a closed order never does); for a balance lock, an (open) order counts
/// exactly when it has a limit price or a trigger price, whether it has one or both; for a
/// maintenance margin, a position counts exactly when it is open.
pub proof fn law_order_admission(is_open: bool, has_price: bool, has_trigger_price: bool)
    ensures
        admits_spec(MarginKind::InitialMargin, is_open, has_price, has_trigger_price)
            == (is_open && (has_price || has_trigger_price)),
        admits_spec(MarginKind::InitialMargin, true, false, true),
        admits_spec(MarginKind::InitialMargin, true, true, true),
        !admits_spec(MarginKind::InitialMargin, false, has_price, has_trigger_price),
        admits_spec(MarginKind::BalanceLocked, true, has_price, has_trigger_price) == (has_price || has_trigger_price),
        admits_spec(MarginKind::BalanceLocked, true, true, true),
        admits_spec(MarginKind::BalanceLocked, true, false, true),
        admits_spec(MarginKind::BalanceLocked, true, true, false),
        admits_spec(MarginKind::MaintenanceMargin, is_open, has_price, has_trigger_price) == is_open,
{
}

} // verus!
