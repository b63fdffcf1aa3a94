//! Properties of the exchange-rate computation that hold over all quotes.

use vstd::prelude::*;
use crate::decimal::{dec_add, dec_div, spec_one, spec_two, spec_zero, Dec};
use crate::text::{symbol_base, symbol_quote};
use crate::xrate::{
    add_code, calculation_quotes, codes_of, empty_rates, lemma_codes_contain_quote, quote_step, common_rates, cross_step, cross_stepper, cross_upto, cross_via,
    ask_for, exchange_rate, inverse_into, law_ask_lookup_same_symbol, mid_quote, mid_quotes, inverse_step, inverse_stepper, rate_in, run_pairs, set_rate,
    code_pairs, pairs_in_row, table_of, with_cross_rates_spec, with_inverses_spec, PriceType, Rates,
};

verus! {

/// Whether `m` is an `n` by `n` table.
pub open spec fn square(m: Rates, n: nat) -> bool {
    &&& m.len() == n
    &&& forall|i: int| 0 <= i < n ==> #[trigger] m[i].len() == n
}

/// Whether every rate that `m` holds, `m2` holds too, unchanged.
pub open spec fn keeps_rates(m: Rates, m2: Rates) -> bool {
    forall|i: int, j: int|
        0 <= i < m.len() && 0 <= j < m.len() && (#[trigger] m[i][j]) is Some ==> m2[i][j] == m[i][j]
}

proof fn lemma_set_rate_square(m: Rates, n: nat, i: int, j: int, v: Option<Dec>)
    requires
        square(m, n),
        0 <= i < n,
        0 <= j < n,
    ensures
        square(set_rate(m, i, j, v), n),
        forall|a: int, b: int|
            0 <= a < n && 0 <= b < n && !(a == i && b == j) ==> #[trigger] set_rate(m, i, j, v)[a][b] == m[a][b],
        set_rate(m, i, j, v)[i][j] == v,
{
    let m2 = set_rate(m, i, j, v);
    assert forall|a: int| 0 <= a < n implies #[trigger] m2[a].len() == n by {}
}

proof fn lemma_inverse_into_keeps(m: Rates, n: nat, a: int, b: int)
    requires
        square(m, n),
        0 <= a < n,
        0 <= b < n,
        inverse_into(m, a, b) is Some,
    ensures
        square(inverse_into(m, a, b)->0, n),
        keeps_rates(m, inverse_into(m, a, b)->0),
{
    match m[a][b] {
        Some(r) => if m[b][a] is None {
            match dec_div(spec_one(), r) {
                Some(x) => lemma_set_rate_square(m, n, b, a, Some(x)),
                None => {},
            }
        },
        None => {},
    }
}

proof fn lemma_inverse_step_keeps(m: Rates, n: nat, a: int, b: int)
    requires
        square(m, n),
        0 <= a < n,
        0 <= b < n,
        inverse_step(m, a, b) is Some,
    ensures
        square(inverse_step(m, a, b)->0, n),
        keeps_rates(m, inverse_step(m, a, b)->0),
{
    lemma_inverse_into_keeps(m, n, a, b);
    let m1 = inverse_into(m, a, b)->0;
    lemma_inverse_into_keeps(m1, n, b, a);
}

proof fn lemma_run_pairs_keeps(
    m: Rates,
    n: nat,
    ps: Seq<(int, int)>,
    step: spec_fn(Rates, int, int) -> Option<Rates>,
)
    requires
        square(m, n),
        forall|k: int| 0 <= k < ps.len() ==> 0 <= (#[trigger] ps[k]).0 < n && 0 <= ps[k].1 < n && ps[k].0 != ps[k].1,
        forall|m1: Rates, a: int, b: int|
            square(m1, n) && 0 <= a < n && 0 <= b < n && a != b && (#[trigger] step(m1, a, b)) is Some
                ==> square(step(m1, a, b)->0, n) && keeps_rates(m1, step(m1, a, b)->0),
    ensures
        run_pairs(m, ps, step) matches Some(m2) ==> square(m2, n) && keeps_rates(m, m2),
    decreases ps.len(),
{
    if ps.len() > 0 {
        let pre = ps.drop_last();
        assert forall|k: int| 0 <= k < pre.len() implies 0 <= (#[trigger] pre[k]).0 < n && 0 <= pre[k].1 < n
            && pre[k].0 != pre[k].1 by {
            assert(pre[k] == ps[k]);
        }
        lemma_run_pairs_keeps(m, n, pre, step);
        match run_pairs(m, pre, step) {
            Some(m1) => {
                let p = ps.last();
                assert(p == ps[ps.len() - 1]);
                match step(m1, p.0, p.1) {
                    Some(m2) => {
                        assert(square(m2, n) && keeps_rates(m1, m2));
                    },
                    None => {},
                }
            },
            None => {},
        }
    }
}

proof fn lemma_pairs_in_row_bounds(a: int, j: int, n: nat)
    requires
        0 <= a < n,
        j <= n,
    ensures
        forall|k: int| 0 <= k < crate::xrate::pairs_in_row(a, j).len()
            ==> 0 <= (#[trigger] crate::xrate::pairs_in_row(a, j)[k]).0 < n
                && 0 <= crate::xrate::pairs_in_row(a, j)[k].1 < n
                && crate::xrate::pairs_in_row(a, j)[k].0 != crate::xrate::pairs_in_row(a, j)[k].1,
    decreases j,
{
    if j > 0 {
        lemma_pairs_in_row_bounds(a, j - 1, n);
        let pre = crate::xrate::pairs_in_row(a, j - 1);
        let s = crate::xrate::pairs_in_row(a, j);
        assert forall|k: int| 0 <= k < s.len() implies 0 <= (#[trigger] s[k]).0 < n && 0 <= s[k].1 < n
            && s[k].0 != s[k].1 by {
            if k < pre.len() {
                assert(s[k] == pre[k]);
            }
        }
    }
}

proof fn lemma_code_pairs_bounds(n: nat, i: int)
    requires
        i <= n,
    ensures
        forall|k: int| 0 <= k < crate::xrate::code_pairs(n as int, i).len()
            ==> 0 <= (#[trigger] crate::xrate::code_pairs(n as int, i)[k]).0 < n
                && 0 <= crate::xrate::code_pairs(n as int, i)[k].1 < n
                && crate::xrate::code_pairs(n as int, i)[k].0 != crate::xrate::code_pairs(n as int, i)[k].1,
    decreases i,
{
    if i > 0 {
        lemma_code_pairs_bounds(n, i - 1);
        lemma_pairs_in_row_bounds(i - 1, n as int, n);
        let p = crate::xrate::code_pairs(n as int, i - 1);
        let q = crate::xrate::pairs_in_row(i - 1, n as int);
        assert forall|k: int| 0 <= k < (p + q).len() implies 0 <= (#[trigger] (p + q)[k]).0 < n
            && 0 <= (p + q)[k].1 < n && (p + q)[k].0 != (p + q)[k].1 by {
            if k < p.len() {
                assert((p + q)[k] == p[k]);
            } else {
                assert((p + q)[k] == q[k - p.len()]);
            }
        }
    }
}

/// Completing a table with inverse rates keeps every rate it holds: it only fills rates
/// that are missing.
pub proof fn law_inverses_keep_rates(m: Rates, n: nat)
    requires
        square(m, n),
    ensures
        with_inverses_spec(m) matches Some(m2) ==> square(m2, n) && keeps_rates(m, m2),
{
    lemma_code_pairs_bounds(n, n as int);
    let step = inverse_stepper();
    assert forall|m1: Rates, a: int, b: int|
        square(m1, n) && 0 <= a < n && 0 <= b < n && a != b && (#[trigger] step(m1, a, b)) is Some
            implies square(step(m1, a, b)->0, n) && keeps_rates(m1, step(m1, a, b)->0) by {
        lemma_inverse_step_keeps(m1, n, a, b);
    }
    lemma_run_pairs_keeps(m, n, crate::xrate::code_pairs(n as int, n as int), step);
}


/// Whether every rate that `m` holds, other than the one at row `x`, column `y`, `m2` holds
/// too, unchanged.
pub open spec fn keeps_rates_except(m: Rates, m2: Rates, x: int, y: int) -> bool {
    forall|i: int, j: int|
        0 <= i < m.len() && 0 <= j < m.len() && !(i == x && j == y) && (#[trigger] m[i][j]) is Some
            ==> m2[i][j] == m[i][j]
}

proof fn lemma_cross_via_keeps(m: Rates, n: nat, a: int, b: int, c: int)
    requires
        square(m, n),
        0 <= a < n,
        0 <= b < n,
        0 <= c < n,
        a != b,
        cross_via(m, a, b, c) is Some,
    ensures
        square(cross_via(m, a, b, c)->0, n),
        keeps_rates_except(m, cross_via(m, a, b, c)->0, b, a),
{
    match common_rates(m, a, b, c) {
        None => {},
        Some(rs) => match dec_div(rs.1, rs.0) {
            None => {},
            Some(f) => {
                lemma_set_rate_square(m, n, b, a, Some(f));
                let m1 = set_rate(m, b, a, Some(f));
                if m1[a][b] is None {
                    match dec_div(rs.0, rs.1) {
                        Some(g) => {
                            lemma_set_rate_square(m1, n, a, b, Some(g));
                        },
                        None => {},
                    }
                }
            },
        },
    }
}

proof fn lemma_cross_upto_keeps(m: Rates, n: nat, a: int, b: int, k: int)
    requires
        square(m, n),
        0 <= a < n,
        0 <= b < n,
        a != b,
        k <= n,
        cross_upto(m, a, b, k) is Some,
    ensures
        square(cross_upto(m, a, b, k)->0, n),
        keeps_rates_except(m, cross_upto(m, a, b, k)->0, b, a),
    decreases k,
{
    if k > 0 {
        lemma_cross_upto_keeps(m, n, a, b, k - 1);
        let m1 = cross_upto(m, a, b, k - 1)->0;
        lemma_cross_via_keeps(m1, n, a, b, k - 1);
    }
}

proof fn lemma_cross_step_keeps(m: Rates, n: nat, a: int, b: int)
    requires
        square(m, n),
        0 <= a < n,
        0 <= b < n,
        a != b,
        cross_step(m, a, b) is Some,
    ensures
        square(cross_step(m, a, b)->0, n),
        keeps_rates(m, cross_step(m, a, b)->0),
{
    if m[b][a] is None {
        lemma_cross_upto_keeps(m, n, a, b, n as int);
    }
}

/// Completing a table with rates through common currencies keeps every rate it holds: it
/// only fills rates that are missing.
pub proof fn law_cross_rates_keep_rates(m: Rates, n: nat)
    requires
        square(m, n),
    ensures
        with_cross_rates_spec(m) matches Some(m2) ==> square(m2, n) && keeps_rates(m, m2),
{
    lemma_code_pairs_bounds(n, n as int);
    let ps = crate::xrate::code_pairs(n as int, n as int);
    let step = cross_stepper();
    assert forall|m1: Rates, a: int, b: int|
        square(m1, n) && 0 <= a < n && 0 <= b < n && a != b && (#[trigger] step(m1, a, b)) is Some
            implies square(step(m1, a, b)->0, n) && keeps_rates(m1, step(m1, a, b)->0) by {
        lemma_cross_step_keeps(m1, n, a, b);
    }
    lemma_run_pairs_keeps(m, n, ps, step);
}


/// The price of the last quote of a symbol whose base code is `x` and quote code is `y`.
pub open spec fn last_quote_for(qs: Seq<(Seq<char>, Dec)>, x: Seq<char>, y: Seq<char>) -> Option<Dec>
    decreases qs.len(),
{
    if qs.len() == 0 {
        None
    } else if symbol_base(qs.last().0) == x && symbol_quote(qs.last().0) == y {
        Some(qs.last().1)
    } else {
        last_quote_for(qs.drop_last(), x, y)
    }
}

proof fn lemma_add_code_no_duplicates(cs: Seq<Seq<char>>, c: Seq<char>)
    requires
        cs.no_duplicates(),
    ensures
        add_code(cs, c).no_duplicates(),
        add_code(cs, c).contains(c),
        forall|d: Seq<char>| cs.contains(d) ==> #[trigger] add_code(cs, c).contains(d),
{
    let cs2 = add_code(cs, c);
    if !cs.contains(c) {
        assert(cs2[cs.len() as int] == c);
        assert forall|i: int, j: int| 0 <= i < cs2.len() && 0 <= j < cs2.len() && i != j implies cs2[i] != cs2[j] by {
            if i < cs.len() && j < cs.len() {
            } else if i < cs.len() {
                assert(cs[i] == cs2[i]);
            } else if j < cs.len() {
                assert(cs[j] == cs2[j]);
            }
        }
    }
    assert forall|d: Seq<char>| cs.contains(d) implies #[trigger] cs2.contains(d) by {
        let i = choose|i: int| 0 <= i < cs.len() && cs[i] == d;
        assert(cs2[i] == d);
    }
}

/// The codes that the quotes name are distinct.
pub proof fn lemma_codes_of_no_duplicates(qs: Seq<(Seq<char>, Dec)>)
    ensures
        codes_of(qs).no_duplicates(),
    decreases qs.len(),
{
    if qs.len() > 0 {
        lemma_codes_of_no_duplicates(qs.drop_last());
        let q = qs.last();
        let cs0 = codes_of(qs.drop_last());
        lemma_add_code_no_duplicates(cs0, symbol_base(q.0));
        lemma_add_code_no_duplicates(add_code(cs0, symbol_base(q.0)), symbol_quote(q.0));
    }
}

proof fn lemma_index_of(cs: Seq<Seq<char>>, c: Seq<char>)
    requires
        cs.contains(c),
    ensures
        0 <= cs.index_of(c) < cs.len(),
        cs[cs.index_of(c)] == c,
{
}

/// In the table that the quotes give directly, the rate between two different codes is the
/// price of the last quote of that pair, or none.
proof fn lemma_table_entry(qs: Seq<(Seq<char>, Dec)>, cs: Seq<Seq<char>>, x: Seq<char>, y: Seq<char>)
    requires
        forall|k: int| 0 <= k < qs.len() ==> cs.contains(symbol_base((#[trigger] qs[k]).0))
            && cs.contains(symbol_quote(qs[k].0)),
        cs.contains(x),
        cs.contains(y),
        x != y,
    ensures
        square(table_of(qs, cs), cs.len()),
        table_of(qs, cs)[cs.index_of(x)][cs.index_of(y)] == last_quote_for(qs, x, y),
    decreases qs.len(),
{
    lemma_index_of(cs, x);
    lemma_index_of(cs, y);
    let ix = cs.index_of(x);
    let iy = cs.index_of(y);
    let n = cs.len();
    if qs.len() == 0 {
        let m = empty_rates(n);
        assert forall|i: int| 0 <= i < n implies #[trigger] m[i].len() == n by {}
    } else {
        let pre = qs.drop_last();
        assert forall|k: int| 0 <= k < pre.len() implies cs.contains(symbol_base((#[trigger] pre[k]).0))
            && cs.contains(symbol_quote(pre[k].0)) by {
            assert(pre[k] == qs[k]);
        }
        lemma_table_entry(pre, cs, x, y);
        let m0 = table_of(pre, cs);
        let q = qs.last();
        assert(q == qs[qs.len() - 1]);
        let base = symbol_base(q.0);
        let quote = symbol_quote(q.0);
        lemma_index_of(cs, base);
        lemma_index_of(cs, quote);
        let a = cs.index_of(base);
        let b = cs.index_of(quote);
        let m1 = set_rate(m0, a, a, Some(spec_one()));
        lemma_set_rate_square(m0, n, a, a, Some(spec_one()));
        let m2 = set_rate(m1, a, b, Some(q.1));
        lemma_set_rate_square(m1, n, a, b, Some(q.1));
        lemma_set_rate_square(m2, n, b, b, Some(spec_one()));
        assert(table_of(qs, cs) == quote_step(m0, cs, q));
        if base == x && quote == y {
            assert(a == ix && b == iy);
        } else {
            if a == ix && b == iy {
                assert(cs[a] == base);
            }
        }
    }
}

/// The exchange rate between a currency and itself is one.
pub proof fn law_same_currency_rate_is_one(
    code: Seq<char>,
    price_type: PriceType,
    bid: Seq<(Seq<char>, Dec)>,
    ask: Seq<(Seq<char>, Dec)>,
)
    ensures
        exchange_rate(code, code, price_type, bid, ask) == Some(spec_one()),
{
}

/// Where a quote names the pair `from/to` directly, the exchange rate from `from` to `to`,
/// wherever it can be computed, is the price of the last such quote.
pub proof fn law_direct_quote(
    from: Seq<char>,
    to: Seq<char>,
    price_type: PriceType,
    bid: Seq<(Seq<char>, Dec)>,
    ask: Seq<(Seq<char>, Dec)>,
    qs: Seq<(Seq<char>, Dec)>,
    p: Dec,
)
    requires
        from != to,
        calculation_quotes(price_type, bid, ask) == Some(qs),
        last_quote_for(qs, from, to) == Some(p),
    ensures
        exchange_rate(from, to, price_type, bid, ask) matches Some(r) ==> r == p,
{
    let cs = codes_of(qs);
    assert forall|k: int| 0 <= k < qs.len() implies cs.contains(symbol_base((#[trigger] qs[k]).0))
        && cs.contains(symbol_quote(qs[k].0)) by {
        lemma_codes_contain_quote(qs, k);
    }
    lemma_last_quote_in(qs, from, to);
    lemma_table_entry(qs, cs, from, to);
    let m1 = table_of(qs, cs);
    law_inverses_keep_rates(m1, cs.len());
    lemma_index_of(cs, from);
    lemma_index_of(cs, to);
}

proof fn lemma_last_quote_in(qs: Seq<(Seq<char>, Dec)>, x: Seq<char>, y: Seq<char>)
    requires
        last_quote_for(qs, x, y) is Some,
    ensures
        codes_of(qs).contains(x),
        codes_of(qs).contains(y),
    decreases qs.len(),
{
    let k = lemma_last_quote_index(qs, x, y);
    lemma_codes_contain_quote(qs, k);
}

proof fn lemma_last_quote_index(qs: Seq<(Seq<char>, Dec)>, x: Seq<char>, y: Seq<char>) -> (k: int)
    requires
        last_quote_for(qs, x, y) is Some,
    ensures
        0 <= k < qs.len(),
        symbol_base(qs[k].0) == x,
        symbol_quote(qs[k].0) == y,
    decreases qs.len(),
{
    if symbol_base(qs.last().0) == x && symbol_quote(qs.last().0) == y {
        qs.len() - 1
    } else {
        let k = lemma_last_quote_index(qs.drop_last(), x, y);
        assert(qs.drop_last()[k] == qs[k]);
        k
    }
}


/// Where no quote names the currency `from` or `to`, the exchange rate between them, wherever
/// it can be computed, is zero.
pub proof fn law_unquoted_currency_rate_is_zero(
    from: Seq<char>,
    to: Seq<char>,
    price_type: PriceType,
    bid: Seq<(Seq<char>, Dec)>,
    ask: Seq<(Seq<char>, Dec)>,
    qs: Seq<(Seq<char>, Dec)>,
)
    requires
        from != to,
        calculation_quotes(price_type, bid, ask) == Some(qs),
        !codes_of(qs).contains(from) || !codes_of(qs).contains(to),
    ensures
        exchange_rate(from, to, price_type, bid, ask) matches Some(r) ==> r == spec_zero(),
{
}

proof fn lemma_pairs_in_row_contains(a: int, j: int, b: int)
    requires
        0 <= b < j,
        b != a,
    ensures
        pairs_in_row(a, j).contains((a, b)),
    decreases j,
{
    if b < j - 1 {
        lemma_pairs_in_row_contains(a, j - 1, b);
        let pre = pairs_in_row(a, j - 1);
        let k = choose|k: int| 0 <= k < pre.len() && pre[k] == (a, b);
        if j - 1 != a {
            assert(pairs_in_row(a, j)[k] == (a, b));
        }
    } else {
        let pre = pairs_in_row(a, j - 1);
        assert(pairs_in_row(a, j)[pre.len() as int] == (a, b));
    }
}

/// Every pair of distinct indices below `n` whose first index is below `i` is in
/// `code_pairs(n, i)`.
proof fn lemma_code_pairs_contains(n: int, i: int, a: int, b: int)
    requires
        0 <= a < i,
        0 <= b < n,
        a != b,
    ensures
        code_pairs(n, i).contains((a, b)),
    decreases i,
{
    let pre = code_pairs(n, i - 1);
    let row = pairs_in_row(i - 1, n);
    assert(code_pairs(n, i) == pre + row);
    if a < i - 1 {
        lemma_code_pairs_contains(n, i - 1, a, b);
        let k = choose|k: int| 0 <= k < pre.len() && pre[k] == (a, b);
        assert((pre + row)[k] == (a, b));
    } else {
        lemma_pairs_in_row_contains(a, n, b);
        let k = choose|k: int| 0 <= k < row.len() && row[k] == (a, b);
        assert((pre + row)[pre.len() + k] == (a, b));
    }
}

proof fn lemma_inverse_into_frame(m: Rates, n: nat, a: int, b: int)
    requires
        square(m, n),
        0 <= a < n,
        0 <= b < n,
        inverse_into(m, a, b) is Some,
    ensures
        forall|i: int, j: int| 0 <= i < n && 0 <= j < n && !(i == b && j == a)
            ==> #[trigger] (inverse_into(m, a, b)->0)[i][j] == m[i][j],
{
    match m[a][b] {
        Some(r) => if m[b][a] is None {
            match dec_div(spec_one(), r) {
                Some(x) => lemma_set_rate_square(m, n, b, a, Some(x)),
                None => {},
            }
        },
        None => {},
    }
}

/// Whether the rate from `f` to `t` is the inverse of the rate `p` from `t` to `f`, or not
/// yet set, as the inverse completion over the pairs `ps` leaves it.
spec fn inverse_tracked(m: Rates, ps: Seq<(int, int)>, f: int, t: int, p: Dec) -> bool {
    &&& m[t][f] == Some(p)
    &&& if ps.contains((f, t)) || ps.contains((t, f)) {
        Some(m[f][t]->0) == dec_div(spec_one(), p) && m[f][t] is Some
    } else {
        m[f][t] is None
    }
}

proof fn lemma_inverse_pass_entry(m: Rates, n: nat, ps: Seq<(int, int)>, f: int, t: int, p: Dec)
    requires
        square(m, n),
        0 <= f < n,
        0 <= t < n,
        f != t,
        m[t][f] == Some(p),
        m[f][t] is None,
        forall|k: int| 0 <= k < ps.len() ==> 0 <= (#[trigger] ps[k]).0 < n && 0 <= ps[k].1 < n && ps[k].0 != ps[k].1,
    ensures
        run_pairs(m, ps, inverse_stepper()) matches Some(m2) ==> square(m2, n) && inverse_tracked(m2, ps, f, t, p),
    decreases ps.len(),
{
    let step = inverse_stepper();
    if ps.len() == 0 {
    } else {
        let pre = ps.drop_last();
        assert forall|k: int| 0 <= k < pre.len() implies 0 <= (#[trigger] pre[k]).0 < n && 0 <= pre[k].1 < n
            && pre[k].0 != pre[k].1 by {
            assert(pre[k] == ps[k]);
        }
        lemma_inverse_pass_entry(m, n, pre, f, t, p);
        match run_pairs(m, pre, step) {
            Some(m1) => {
                let (x, y) = ps.last();
                assert(ps.last() == ps[ps.len() - 1]);
                assert(run_pairs(m, ps, step) == inverse_step(m1, x, y));
                assert forall|c: (int, int)| pre.contains(c) implies ps.contains(c) by {
                    let k = choose|k: int| 0 <= k < pre.len() && pre[k] == c;
                    assert(ps[k] == c);
                }
                assert(ps.contains((x, y)));
                if ps.contains((f, t)) || ps.contains((t, f)) {
                    if !(pre.contains((f, t)) || pre.contains((t, f))) {
                        let k = if ps.contains((f, t)) {
                            choose|k: int| 0 <= k < ps.len() && ps[k] == (f, t)
                        } else {
                            choose|k: int| 0 <= k < ps.len() && ps[k] == (t, f)
                        };
                        if k < pre.len() {
                            assert(pre[k] == ps[k]);
                        }
                        assert(k == ps.len() - 1);
                    }
                }
                match inverse_into(m1, x, y) {
                    Some(ma) => {
                        lemma_inverse_into_frame(m1, n, x, y);
                        lemma_inverse_into_keeps(m1, n, x, y);
                        match inverse_into(ma, y, x) {
                            Some(mb) => {
                                lemma_inverse_into_frame(ma, n, y, x);
                                lemma_inverse_into_keeps(ma, n, y, x);
                            },
                            None => {},
                        }
                    },
                    None => {},
                }
            },
            None => {},
        }
    }
}

/// Where no quote names the pair `from/to` but one names `to/from`, the exchange rate from
/// `from` to `to`, wherever it can be computed, is one over the price of the last such quote.
pub proof fn law_inverse_quote(
    from: Seq<char>,
    to: Seq<char>,
    price_type: PriceType,
    bid: Seq<(Seq<char>, Dec)>,
    ask: Seq<(Seq<char>, Dec)>,
    qs: Seq<(Seq<char>, Dec)>,
    p: Dec,
)
    requires
        from != to,
        calculation_quotes(price_type, bid, ask) == Some(qs),
        last_quote_for(qs, from, to) is None,
        last_quote_for(qs, to, from) == Some(p),
    ensures
        exchange_rate(from, to, price_type, bid, ask) matches Some(r) ==> Some(r) == dec_div(spec_one(), p),
{
    let cs = codes_of(qs);
    let n = cs.len();
    assert forall|k: int| 0 <= k < qs.len() implies cs.contains(symbol_base((#[trigger] qs[k]).0))
        && cs.contains(symbol_quote(qs[k].0)) by {
        lemma_codes_contain_quote(qs, k);
    }
    lemma_last_quote_in(qs, to, from);
    lemma_table_entry(qs, cs, from, to);
    lemma_table_entry(qs, cs, to, from);
    lemma_index_of(cs, from);
    lemma_index_of(cs, to);
    let f = cs.index_of(from);
    let t = cs.index_of(to);
    assert(f != t);
    let m1 = table_of(qs, cs);
    let ps = code_pairs(n as int, n as int);
    lemma_code_pairs_bounds(n, n as int);
    if f < t {
        lemma_code_pairs_contains(n as int, n as int, f, t);
    } else {
        lemma_code_pairs_contains(n as int, n as int, t, f);
    }
    lemma_inverse_pass_entry(m1, n, ps, f, t, p);
}


/// Whether the table has a rate from `a` to `b` exactly where it has one from `b` to `a`,
/// for every pair in `ps`.
spec fn paired_over(m: Rates, ps: Seq<(int, int)>) -> bool {
    forall|k: int| 0 <= k < ps.len() ==> (m[(#[trigger] ps[k]).0][ps[k].1] is Some <==> m[ps[k].1][ps[k].0] is Some)
}

proof fn lemma_inverse_step_pairs(m: Rates, n: nat, x: int, y: int)
    requires
        square(m, n),
        0 <= x < n,
        0 <= y < n,
        x != y,
        inverse_step(m, x, y) is Some,
    ensures
        (inverse_step(m, x, y)->0)[x][y] is Some <==> (inverse_step(m, x, y)->0)[y][x] is Some,
        forall|i: int, j: int| 0 <= i < n && 0 <= j < n && !(i == x && j == y) && !(i == y && j == x)
            ==> #[trigger] (inverse_step(m, x, y)->0)[i][j] == m[i][j],
{
    lemma_inverse_into_frame(m, n, x, y);
    lemma_inverse_into_keeps(m, n, x, y);
    let m1 = inverse_into(m, x, y)->0;
    lemma_inverse_into_frame(m1, n, y, x);
    lemma_inverse_into_keeps(m1, n, y, x);
    let m2 = inverse_into(m1, y, x)->0;
    match m[x][y] {
        Some(r) => if m[y][x] is None {
            match dec_div(spec_one(), r) {
                Some(v) => lemma_set_rate_square(m, n, y, x, Some(v)),
                None => {},
            }
        },
        None => {},
    }
    match m1[y][x] {
        Some(r) => if m1[x][y] is None {
            match dec_div(spec_one(), r) {
                Some(v) => lemma_set_rate_square(m1, n, x, y, Some(v)),
                None => {},
            }
        },
        None => {},
    }
}

proof fn lemma_inverse_pass_pairs(m: Rates, n: nat, ps: Seq<(int, int)>)
    requires
        square(m, n),
        forall|k: int| 0 <= k < ps.len() ==> 0 <= (#[trigger] ps[k]).0 < n && 0 <= ps[k].1 < n && ps[k].0 != ps[k].1,
    ensures
        run_pairs(m, ps, inverse_stepper()) matches Some(m2) ==> square(m2, n) && paired_over(m2, ps),
    decreases ps.len(),
{
    let step = inverse_stepper();
    if ps.len() > 0 {
        let pre = ps.drop_last();
        assert forall|k: int| 0 <= k < pre.len() implies 0 <= (#[trigger] pre[k]).0 < n && 0 <= pre[k].1 < n
            && pre[k].0 != pre[k].1 by {
            assert(pre[k] == ps[k]);
        }
        lemma_inverse_pass_pairs(m, n, pre);
        match run_pairs(m, pre, step) {
            Some(m1) => {
                let (x, y) = ps.last();
                assert(ps.last() == ps[ps.len() - 1]);
                assert(run_pairs(m, ps, step) == inverse_step(m1, x, y));
                if inverse_step(m1, x, y) is Some {
                    lemma_inverse_step_keeps(m1, n, x, y);
                    lemma_inverse_step_pairs(m1, n, x, y);
                    let m2 = inverse_step(m1, x, y)->0;
                    assert forall|k: int| 0 <= k < ps.len() implies
                        (m2[(#[trigger] ps[k]).0][ps[k].1] is Some <==> m2[ps[k].1][ps[k].0] is Some) by {
                        if k < ps.len() - 1 {
                            assert(pre[k] == ps[k]);
                            let (a, b) = ps[k];
                            if !(a == x && b == y) && !(a == y && b == x) {
                                assert(m2[a][b] == m1[a][b]);
                                assert(m2[b][a] == m1[b][a]);
                            }
                        }
                    }
                }
            },
            None => {},
        }
    }
}

/// Completing a table with inverse rates pairs every rate up: afterwards the table has a
/// rate from one code to another exactly where it has one back.
pub proof fn law_inverses_pair_up(m: Rates, n: nat)
    requires
        square(m, n),
    ensures
        with_inverses_spec(m) matches Some(m2) ==> forall|a: int, b: int|
            0 <= a < n && 0 <= b < n && a != b ==> (#[trigger] m2[a][b] is Some <==> m2[b][a] is Some),
{
    let ps = code_pairs(n as int, n as int);
    lemma_code_pairs_bounds(n, n as int);
    lemma_inverse_pass_pairs(m, n, ps);
    match with_inverses_spec(m) {
        Some(m2) => {
            assert forall|a: int, b: int| 0 <= a < n && 0 <= b < n && a != b implies
                (#[trigger] m2[a][b] is Some <==> m2[b][a] is Some) by {
                lemma_code_pairs_contains(n as int, n as int, a, b);
                let k = choose|k: int| 0 <= k < ps.len() && ps[k] == (a, b);
                assert(ps[k] == (a, b));
            }
        },
        None => {},
    }
}


/// Whether the codes `a` and `b` share the common currency `c` in `m`: both have rates to
/// `c`, or `c` has rates to both.
pub open spec fn share_currency(m: Rates, a: int, b: int, c: int) -> bool {
    (m[a][c] is Some && m[b][c] is Some) || (m[c][a] is Some && m[c][b] is Some)
}

proof fn lemma_cross_via_keeps_set(m: Rates, n: nat, a: int, b: int, c: int)
    requires
        square(m, n),
        0 <= a < n,
        0 <= b < n,
        0 <= c < n,
        a != b,
        cross_via(m, a, b, c) is Some,
    ensures
        m[b][a] is Some ==> (cross_via(m, a, b, c)->0)[b][a] is Some,
        share_currency(m, a, b, c) ==> (cross_via(m, a, b, c)->0)[b][a] is Some,
{
    lemma_cross_via_keeps(m, n, a, b, c);
    match common_rates(m, a, b, c) {
        None => {},
        Some(rs) => match dec_div(rs.1, rs.0) {
            None => {},
            Some(f) => {
                lemma_set_rate_square(m, n, b, a, Some(f));
                let m1 = set_rate(m, b, a, Some(f));
                if m1[a][b] is None {
                    match dec_div(rs.0, rs.1) {
                        Some(g) => {
                            lemma_set_rate_square(m1, n, a, b, Some(g));
                        },
                        None => {},
                    }
                }
            },
        },
    }
}

proof fn lemma_cross_upto_sets(m: Rates, n: nat, a: int, b: int, k: int, c: int)
    requires
        square(m, n),
        0 <= a < n,
        0 <= b < n,
        a != b,
        0 <= c < k <= n,
        m[b][a] is None,
        share_currency(m, a, b, c),
        cross_upto(m, a, b, k) is Some,
    ensures
        (cross_upto(m, a, b, k)->0)[b][a] is Some,
    decreases k,
{
    lemma_cross_upto_keeps(m, n, a, b, k - 1);
    let r = cross_upto(m, a, b, k - 1)->0;
    lemma_cross_via_keeps_set(r, n, a, b, k - 1);
    if c < k - 1 {
        lemma_cross_upto_sets(m, n, a, b, k - 1, c);
    } else {
        // the entries through `c` differ from the one at row `b`, column `a`, which is missing
        assert(share_currency(r, a, b, c));
    }
}

proof fn lemma_cross_step_links(m: Rates, n: nat, a: int, b: int, c: int)
    requires
        square(m, n),
        0 <= a < n,
        0 <= b < n,
        0 <= c < n,
        a != b,
        share_currency(m, a, b, c),
        cross_step(m, a, b) is Some,
    ensures
        (cross_step(m, a, b)->0)[b][a] is Some,
{
    if m[b][a] is None {
        lemma_cross_upto_sets(m, n, a, b, n as int, c);
    }
}

/// Whether, for every pair `(x, y)` in `ps` and every common currency `c` of `x` and `y` in
/// `m`, the table `mk` has a rate from `y` to `x`.
spec fn linked_over(m: Rates, mk: Rates, n: nat, ps: Seq<(int, int)>) -> bool {
    forall|k: int, c: int| 0 <= k < ps.len() && 0 <= c < n && #[trigger] share_currency(m, ps[k].0, ps[k].1, c)
        ==> mk[ps[k].1][ps[k].0] is Some
}

proof fn lemma_keeps_share(m: Rates, m2: Rates, n: nat, a: int, b: int, c: int)
    requires
        square(m, n),
        keeps_rates(m, m2),
        0 <= a < n,
        0 <= b < n,
        0 <= c < n,
        share_currency(m, a, b, c),
    ensures
        share_currency(m2, a, b, c),
{
    if m[a][c] is Some && m[b][c] is Some {
        assert(m2[a][c] == m[a][c]);
        assert(m2[b][c] == m[b][c]);
    } else {
        assert(m2[c][a] == m[c][a]);
        assert(m2[c][b] == m[c][b]);
    }
}

proof fn lemma_cross_pass_links(m: Rates, n: nat, ps: Seq<(int, int)>)
    requires
        square(m, n),
        forall|k: int| 0 <= k < ps.len() ==> 0 <= (#[trigger] ps[k]).0 < n && 0 <= ps[k].1 < n && ps[k].0 != ps[k].1,
    ensures
        run_pairs(m, ps, cross_stepper()) matches Some(mk) ==> square(mk, n) && keeps_rates(m, mk)
            && linked_over(m, mk, n, ps),
    decreases ps.len(),
{
    let step = cross_stepper();
    if ps.len() > 0 {
        let pre = ps.drop_last();
        assert forall|k: int| 0 <= k < pre.len() implies 0 <= (#[trigger] pre[k]).0 < n && 0 <= pre[k].1 < n
            && pre[k].0 != pre[k].1 by {
            assert(pre[k] == ps[k]);
        }
        lemma_cross_pass_links(m, n, pre);
        match run_pairs(m, pre, step) {
            Some(m1) => {
                let (x, y) = ps.last();
                assert(ps.last() == ps[ps.len() - 1]);
                assert(run_pairs(m, ps, step) == cross_step(m1, x, y));
                if cross_step(m1, x, y) is Some {
                    lemma_cross_step_keeps(m1, n, x, y);
                    let m2 = cross_step(m1, x, y)->0;
                    assert forall|i: int, j: int|
                        0 <= i < m.len() && 0 <= j < m.len() && (#[trigger] m[i][j]) is Some implies m2[i][j] == m[i][j] by {
                        assert(m1[i][j] == m[i][j]);
                    }
                    assert forall|k: int, c: int| 0 <= k < ps.len() && 0 <= c < n
                        && #[trigger] share_currency(m, ps[k].0, ps[k].1, c) implies m2[ps[k].1][ps[k].0] is Some by {
                        if k < ps.len() - 1 {
                            assert(pre[k] == ps[k]);
                            let (a, b) = ps[k];
                            assert(m1[b][a] is Some);
                            assert(m2[b][a] == m1[b][a]);
                        } else {
                            lemma_keeps_share(m, m1, n, x, y, c);
                            lemma_cross_step_links(m1, n, x, y, c);
                        }
                    }
                }
            },
            None => {},
        }
    }
}

/// Completing a table with rates through common currencies links every two codes that share
/// a common currency in it: afterwards the table has rates between them both ways.
pub proof fn law_cross_rates_link_common_currency(m: Rates, n: nat)
    requires
        square(m, n),
    ensures
        with_cross_rates_spec(m) matches Some(m3) ==> forall|a: int, b: int, c: int|
            0 <= a < n && 0 <= b < n && 0 <= c < n && a != b && #[trigger] share_currency(m, a, b, c)
                ==> m3[a][b] is Some && m3[b][a] is Some,
{
    let ps = code_pairs(n as int, n as int);
    lemma_code_pairs_bounds(n, n as int);
    lemma_cross_pass_links(m, n, ps);
    match with_cross_rates_spec(m) {
        Some(m3) => {
            assert forall|a: int, b: int, c: int|
                0 <= a < n && 0 <= b < n && 0 <= c < n && a != b && #[trigger] share_currency(m, a, b, c)
                    implies m3[a][b] is Some && m3[b][a] is Some by {
                lemma_code_pairs_contains(n as int, n as int, a, b);
                let k = choose|k: int| 0 <= k < ps.len() && ps[k] == (a, b);
                assert(ps[k] == (a, b));
                lemma_code_pairs_contains(n as int, n as int, b, a);
                let k2 = choose|k: int| 0 <= k < ps.len() && ps[k] == (b, a);
                assert(ps[k2] == (b, a));
                assert(share_currency(m, b, a, c));
            }
        },
        None => {},
    }
}


/// Whether `m` has a rate between `i` and `j` in either direction.
pub open spec fn adjacent(m: Rates, i: int, j: int) -> bool {
    m[i][j] is Some || m[j][i] is Some
}

/// Whether the codes at `p[k]` and `p[k + 1]` are adjacent in `m`.
pub open spec fn adjacent_at(m: Rates, p: Seq<int>, k: int) -> bool {
    adjacent(m, p[k], p[k + 1])
}

/// Whether `p` is a chain of codes below `n`, each adjacent in `m` to the next.
pub open spec fn is_chain(m: Rates, n: nat, p: Seq<int>) -> bool {
    &&& p.len() >= 1
    &&& forall|k: int| 0 <= k < p.len() ==> 0 <= #[trigger] p[k] < n
    &&& forall|k: int| 0 <= k < p.len() - 1 ==> #[trigger] adjacent_at(m, p, k)
}

/// Whether a chain of rates in `m` (in either direction) leads from `i` to `j`.
pub open spec fn linked(m: Rates, n: nat, i: int, j: int) -> bool {
    exists|p: Seq<int>| is_chain(m, n, p) && p[0] == i && p.last() == j
}

proof fn lemma_linked_adjacent(m: Rates, n: nat, i: int, j: int)
    requires
        0 <= i < n,
        0 <= j < n,
        adjacent(m, i, j),
    ensures
        linked(m, n, i, j),
{
    let p = seq![i, j];
    assert(adjacent_at(m, p, 0));
    assert forall|k: int| 0 <= k < p.len() implies 0 <= #[trigger] p[k] < n by {}
    assert(is_chain(m, n, p));
    assert(p[0] == i && p.last() == j);
}

proof fn lemma_linked_symmetric(m: Rates, n: nat, i: int, j: int)
    requires
        linked(m, n, i, j),
    ensures
        linked(m, n, j, i),
{
    let p = choose|p: Seq<int>| is_chain(m, n, p) && p[0] == i && p.last() == j;
    let l = p.len();
    let q = Seq::new(l, |k: int| p[l - 1 - k]);
    assert forall|k: int| 0 <= k < q.len() implies 0 <= #[trigger] q[k] < n by {
        assert(q[k] == p[l - 1 - k]);
    }
    assert forall|k: int| 0 <= k < q.len() - 1 implies #[trigger] adjacent_at(m, q, k) by {
        let t = l - 2 - k;
        assert(adjacent_at(m, p, t));
        assert(q[k] == p[t + 1]);
        assert(q[k + 1] == p[t]);
    }
    assert(is_chain(m, n, q));
    assert(q[0] == j);
    assert(q.last() == i);
}

proof fn lemma_linked_transitive(m: Rates, n: nat, i: int, j: int, k: int)
    requires
        linked(m, n, i, j),
        linked(m, n, j, k),
    ensures
        linked(m, n, i, k),
{
    let p = choose|p: Seq<int>| is_chain(m, n, p) && p[0] == i && p.last() == j;
    let q = choose|q: Seq<int>| is_chain(m, n, q) && q[0] == j && q.last() == k;
    let r = p + q.drop_first();
    assert forall|t: int| 0 <= t < r.len() implies 0 <= #[trigger] r[t] < n by {
        if t < p.len() {
            assert(r[t] == p[t]);
        } else {
            assert(r[t] == q[t - p.len() + 1]);
        }
    }
    assert forall|t: int| 0 <= t < r.len() - 1 implies #[trigger] adjacent_at(m, r, t) by {
        if t < p.len() - 1 {
            assert(adjacent_at(m, p, t));
            assert(r[t] == p[t] && r[t + 1] == p[t + 1]);
        } else if t == p.len() - 1 {
            assert(adjacent_at(m, q, 0));
            assert(r[t] == q[0]);
            assert(r[t + 1] == q[1]);
        } else {
            let u = t - p.len() + 1;
            assert(adjacent_at(m, q, u));
            assert(r[t] == q[u] && r[t + 1] == q[u + 1]);
        }
    }
    assert(is_chain(m, n, r));
    if q.len() == 1 {
        assert(r =~= p);
    } else {
        assert(r.last() == q.last());
    }
}

/// Whether every rate that `m` holds joins two codes linked in `m0`.
pub open spec fn rates_within(m0: Rates, m: Rates, n: nat) -> bool {
    forall|i: int, j: int| 0 <= i < n && 0 <= j < n && (#[trigger] m[i][j]) is Some ==> linked(m0, n, i, j)
}

proof fn lemma_within_set(m0: Rates, m: Rates, n: nat, i: int, j: int, v: Option<Dec>)
    requires
        square(m, n),
        rates_within(m0, m, n),
        0 <= i < n,
        0 <= j < n,
        linked(m0, n, i, j),
    ensures
        square(set_rate(m, i, j, v), n),
        rates_within(m0, set_rate(m, i, j, v), n),
{
    lemma_set_rate_square(m, n, i, j, v);
    let m2 = set_rate(m, i, j, v);
    assert forall|a: int, b: int| 0 <= a < n && 0 <= b < n && (#[trigger] m2[a][b]) is Some implies linked(m0, n, a, b) by {
        if !(a == i && b == j) {
            assert(m2[a][b] == m[a][b]);
        }
    }
}

proof fn lemma_inverse_into_within(m0: Rates, m: Rates, n: nat, a: int, b: int)
    requires
        square(m, n),
        rates_within(m0, m, n),
        0 <= a < n,
        0 <= b < n,
        inverse_into(m, a, b) is Some,
    ensures
        square(inverse_into(m, a, b)->0, n),
        rates_within(m0, inverse_into(m, a, b)->0, n),
{
    match m[a][b] {
        Some(r) => if m[b][a] is None {
            match dec_div(spec_one(), r) {
                Some(x) => {
                    lemma_linked_symmetric(m0, n, a, b);
                    lemma_within_set(m0, m, n, b, a, Some(x));
                },
                None => {},
            }
        },
        None => {},
    }
}

proof fn lemma_cross_via_within(m0: Rates, m: Rates, n: nat, a: int, b: int, c: int)
    requires
        square(m, n),
        rates_within(m0, m, n),
        0 <= a < n,
        0 <= b < n,
        0 <= c < n,
        a != b,
        cross_via(m, a, b, c) is Some,
    ensures
        square(cross_via(m, a, b, c)->0, n),
        rates_within(m0, cross_via(m, a, b, c)->0, n),
{
    match common_rates(m, a, b, c) {
        None => {},
        Some(rs) => {
            if m[a][c] is Some && m[b][c] is Some {
                lemma_linked_symmetric(m0, n, a, c);
                lemma_linked_transitive(m0, n, b, c, a);
            } else {
                lemma_linked_symmetric(m0, n, c, b);
                lemma_linked_transitive(m0, n, b, c, a);
            }
            lemma_linked_symmetric(m0, n, b, a);
            match dec_div(rs.1, rs.0) {
                None => {},
                Some(f) => {
                    lemma_within_set(m0, m, n, b, a, Some(f));
                    let m1 = set_rate(m, b, a, Some(f));
                    if m1[a][b] is None {
                        match dec_div(rs.0, rs.1) {
                            Some(g) => lemma_within_set(m0, m1, n, a, b, Some(g)),
                            None => {},
                        }
                    }
                },
            }
        },
    }
}

proof fn lemma_cross_upto_within(m0: Rates, m: Rates, n: nat, a: int, b: int, k: int)
    requires
        square(m, n),
        rates_within(m0, m, n),
        0 <= a < n,
        0 <= b < n,
        a != b,
        k <= n,
        cross_upto(m, a, b, k) is Some,
    ensures
        square(cross_upto(m, a, b, k)->0, n),
        rates_within(m0, cross_upto(m, a, b, k)->0, n),
    decreases k,
{
    if k > 0 {
        lemma_cross_upto_within(m0, m, n, a, b, k - 1);
        lemma_cross_via_within(m0, cross_upto(m, a, b, k - 1)->0, n, a, b, k - 1);
    }
}

proof fn lemma_run_pairs_within(
    m0: Rates,
    m: Rates,
    n: nat,
    ps: Seq<(int, int)>,
    step: spec_fn(Rates, int, int) -> Option<Rates>,
)
    requires
        square(m, n),
        rates_within(m0, m, n),
        forall|k: int| 0 <= k < ps.len() ==> 0 <= (#[trigger] ps[k]).0 < n && 0 <= ps[k].1 < n && ps[k].0 != ps[k].1,
        forall|m1: Rates, a: int, b: int|
            square(m1, n) && rates_within(m0, m1, n) && 0 <= a < n && 0 <= b < n && a != b
                && (#[trigger] step(m1, a, b)) is Some
                ==> square(step(m1, a, b)->0, n) && rates_within(m0, step(m1, a, b)->0, n),
    ensures
        run_pairs(m, ps, step) matches Some(m2) ==> square(m2, n) && rates_within(m0, m2, n),
    decreases ps.len(),
{
    if ps.len() > 0 {
        let pre = ps.drop_last();
        assert forall|k: int| 0 <= k < pre.len() implies 0 <= (#[trigger] pre[k]).0 < n && 0 <= pre[k].1 < n
            && pre[k].0 != pre[k].1 by {
            assert(pre[k] == ps[k]);
        }
        lemma_run_pairs_within(m0, m, n, pre, step);
        match run_pairs(m, pre, step) {
            Some(m1) => {
                let p = ps.last();
                assert(p == ps[ps.len() - 1]);
            },
            None => {},
        }
    }
}

/// Completing a table with inverse rates and then with rates through common currencies
/// only adds rates between codes that a chain of rates of the table links.
pub proof fn law_completion_stays_linked(m: Rates, n: nat)
    requires
        square(m, n),
    ensures
        with_inverses_spec(m) matches Some(m2) ==> square(m2, n) && rates_within(m, m2, n)
            && (with_cross_rates_spec(m2) matches Some(m3) ==> rates_within(m, m3, n)),
{
    assert forall|i: int, j: int| 0 <= i < n && 0 <= j < n && (#[trigger] m[i][j]) is Some implies linked(m, n, i, j) by {
        lemma_linked_adjacent(m, n, i, j);
    }
    let ps = code_pairs(n as int, n as int);
    lemma_code_pairs_bounds(n, n as int);
    let inv = inverse_stepper();
    assert forall|m1: Rates, a: int, b: int|
        square(m1, n) && rates_within(m, m1, n) && 0 <= a < n && 0 <= b < n && a != b
            && (#[trigger] inv(m1, a, b)) is Some
            implies square(inv(m1, a, b)->0, n) && rates_within(m, inv(m1, a, b)->0, n) by {
        lemma_inverse_into_within(m, m1, n, a, b);
        lemma_inverse_into_within(m, inverse_into(m1, a, b)->0, n, b, a);
    }
    lemma_run_pairs_within(m, m, n, ps, inv);
    let cross = cross_stepper();
    assert forall|m1: Rates, a: int, b: int|
        square(m1, n) && rates_within(m, m1, n) && 0 <= a < n && 0 <= b < n && a != b
            && (#[trigger] cross(m1, a, b)) is Some
            implies square(cross(m1, a, b)->0, n) && rates_within(m, cross(m1, a, b)->0, n) by {
        if m1[b][a] is None {
            lemma_cross_upto_within(m, m1, n, a, b, n as int);
        }
    }
    match with_inverses_spec(m) {
        Some(m2) => {
            assert(m2.len() == n);
            lemma_run_pairs_within(m, m2, n, ps, cross);
        },
        None => {},
    }
}

/// Where no chain of quoted pairs links `from` to `to` (in the table the quotes give, two
/// different codes have a rate exactly where a quote names them, in either order), the
/// exchange rate between them, wherever it can be computed, is zero.
pub proof fn law_unlinked_currencies_rate_is_zero(
    from: Seq<char>,
    to: Seq<char>,
    price_type: PriceType,
    bid: Seq<(Seq<char>, Dec)>,
    ask: Seq<(Seq<char>, Dec)>,
    qs: Seq<(Seq<char>, Dec)>,
)
    requires
        from != to,
        calculation_quotes(price_type, bid, ask) == Some(qs),
        codes_of(qs).contains(from),
        codes_of(qs).contains(to),
        !linked(
            table_of(qs, codes_of(qs)),
            codes_of(qs).len(),
            codes_of(qs).index_of(from),
            codes_of(qs).index_of(to),
        ),
    ensures
        exchange_rate(from, to, price_type, bid, ask) matches Some(r) ==> r == spec_zero(),
{
    let cs = codes_of(qs);
    let n = cs.len();
    assert forall|k: int| 0 <= k < qs.len() implies cs.contains(symbol_base((#[trigger] qs[k]).0))
        && cs.contains(symbol_quote(qs[k].0)) by {
        lemma_codes_contain_quote(qs, k);
    }
    lemma_table_entry(qs, cs, from, to);
    lemma_index_of(cs, from);
    lemma_index_of(cs, to);
    let m1 = table_of(qs, cs);
    law_completion_stays_linked(m1, n);
}


proof fn lemma_mid_quotes_entries(bid: Seq<(Seq<char>, Dec)>, ask: Seq<(Seq<char>, Dec)>)
    requires
        mid_quotes(bid, ask) is Some,
    ensures
        (mid_quotes(bid, ask)->0).len() == bid.len(),
        forall|i: int| 0 <= i < bid.len() ==> mid_quote(#[trigger] bid[i], ask) == Some((mid_quotes(bid, ask)->0)[i]),
    decreases bid.len(),
{
    if bid.len() > 0 {
        let pre = bid.drop_last();
        lemma_mid_quotes_entries(pre, ask);
        let qs = mid_quotes(bid, ask)->0;
        let q0 = mid_quotes(pre, ask)->0;
        assert forall|i: int| 0 <= i < bid.len() implies mid_quote(#[trigger] bid[i], ask) == Some(qs[i]) by {
            if i < bid.len() - 1 {
                assert(pre[i] == bid[i]);
                assert(qs[i] == q0[i]);
            }
        }
    }
}

proof fn lemma_last_quote_at(qs: Seq<(Seq<char>, Dec)>, x: Seq<char>, y: Seq<char>, k: int)
    requires
        0 <= k < qs.len(),
        symbol_base(qs[k].0) == x,
        symbol_quote(qs[k].0) == y,
        forall|i: int| k < i < qs.len() ==> !(symbol_base((#[trigger] qs[i]).0) == x && symbol_quote(qs[i].0) == y),
    ensures
        last_quote_for(qs, x, y) == Some(qs[k].1),
    decreases qs.len(),
{
    if k < qs.len() - 1 {
        let pre = qs.drop_last();
        assert(qs.last() == qs[qs.len() - 1]);
        assert forall|i: int| k < i < pre.len() implies !(symbol_base((#[trigger] pre[i]).0) == x && symbol_quote(pre[i].0) == y) by {
            assert(pre[i] == qs[i]);
        }
        lemma_last_quote_at(pre, x, y, k);
        assert(pre[k] == qs[k]);
    }
}

/// With mid prices, the rate of a pair `from/to` quoted directly is the mean of the bid and
/// the ask of that very symbol: where the last bid quote of the pair is `bid[k]` and the ask
/// quote of the same symbol is `ask[j]` (ask symbols being distinct), the exchange rate from
/// `from` to `to`, wherever it can be computed, is `(bid[k] + ask[j]) / 2`.
pub proof fn law_mid_direct_quote(
    from: Seq<char>,
    to: Seq<char>,
    bid: Seq<(Seq<char>, Dec)>,
    ask: Seq<(Seq<char>, Dec)>,
    k: int,
    j: int,
)
    requires
        from != to,
        0 <= k < bid.len(),
        0 <= j < ask.len(),
        symbol_base(bid[k].0) == from,
        symbol_quote(bid[k].0) == to,
        forall|i: int| k < i < bid.len() ==> !(symbol_base((#[trigger] bid[i]).0) == from && symbol_quote(bid[i].0) == to),
        ask[j].0 == bid[k].0,
        forall|i: int| 0 <= i < ask.len() && i != j ==> (#[trigger] ask[i]).0 != ask[j].0,
    ensures
        exchange_rate(from, to, PriceType::Mid, bid, ask) matches Some(r) ==> Some(r) == (match dec_add(bid[k].1, ask[j].1) {
            Some(sum) => dec_div(sum, spec_two()),
            None => None,
        }),
{
    if mid_quotes(bid, ask) is Some {
        let qs = mid_quotes(bid, ask)->0;
        lemma_mid_quotes_entries(bid, ask);
        assert(mid_quote(bid[k], ask) == Some(qs[k]));
        law_ask_lookup_same_symbol(ask, bid[k].0);
        assert(ask_for(ask, bid[k].0) is Some);
        let j2 = choose|i: int| 0 <= i < ask.len() && (#[trigger] ask[i]).0 == bid[k].0
            && ask[i].1 == ask_for(ask, bid[k].0)->0 && forall|i2: int| 0 <= i2 < i ==> (#[trigger] ask[i2]).0 != bid[k].0;
        if j2 != j {
            assert(ask[j2].0 != ask[j].0);
        }
        assert(ask_for(ask, bid[k].0) == Some(ask[j].1));
        assert(qs[k].0 == bid[k].0);
        assert forall|i: int| k < i < qs.len() implies !(symbol_base((#[trigger] qs[i]).0) == from && symbol_quote(qs[i].0) == to) by {
            assert(mid_quote(bid[i], ask) == Some(qs[i]));
            assert(qs[i].0 == bid[i].0);
        }
        lemma_last_quote_at(qs, from, to, k);
        law_direct_quote(from, to, PriceType::Mid, bid, ask, qs, qs[k].1);
    }
}


proof fn lemma_cross_via_frame(m: Rates, n: nat, a: int, b: int, c: int)
    requires
        square(m, n),
        0 <= a < n,
        0 <= b < n,
        a != b,
        cross_via(m, a, b, c) is Some,
    ensures
        square(cross_via(m, a, b, c)->0, n),
        forall|i: int, j: int| 0 <= i < n && 0 <= j < n && !(i == a && j == b) && !(i == b && j == a)
            ==> #[trigger] (cross_via(m, a, b, c)->0)[i][j] == m[i][j],
        m[a][b] is Some ==> (cross_via(m, a, b, c)->0)[a][b] == m[a][b],
        m[b][a] is Some ==> (cross_via(m, a, b, c)->0)[b][a] is Some,
{
    match common_rates(m, a, b, c) {
        None => {},
        Some(rs) => match dec_div(rs.1, rs.0) {
            None => {},
            Some(f) => {
                lemma_set_rate_square(m, n, b, a, Some(f));
                let m1 = set_rate(m, b, a, Some(f));
                if m1[a][b] is None {
                    match dec_div(rs.0, rs.1) {
                        Some(g) => lemma_set_rate_square(m1, n, a, b, Some(g)),
                        None => {},
                    }
                }
            },
        },
    }
}

/// The cross rates of the pair `(a, b)` where the table has no rate between `a` and `b` and
/// `c0` is the only other code through which they have common rates, `a` and `b` having
/// rates `ra` and `rb` to `c0`: once `c0` is passed, the rate from `a` to `b` is `ra / rb`,
/// and the rate from `b` to `a` is `rb / ra` as long as neither `a` nor `b` follows `c0`.
proof fn lemma_cross_unique_common(m: Rates, n: nat, a: int, b: int, c0: int, ra: Dec, rb: Dec, k: int)
    requires
        square(m, n),
        0 <= a < n,
        0 <= b < n,
        a != b,
        0 <= c0 < n,
        c0 != a,
        c0 != b,
        m[a][b] is None,
        m[b][a] is None,
        m[a][c0] == Some(ra),
        m[b][c0] == Some(rb),
        forall|c: int| 0 <= c < n && c != a && c != b && c != c0 ==> #[trigger] common_rates(m, a, b, c) is None,
        0 <= k <= n,
        cross_upto(m, a, b, k) is Some,
    ensures
        square(cross_upto(m, a, b, k)->0, n),
        forall|i: int, j: int| 0 <= i < n && 0 <= j < n && !(i == a && j == b) && !(i == b && j == a)
            ==> #[trigger] (cross_upto(m, a, b, k)->0)[i][j] == m[i][j],
        k <= c0 ==> cross_upto(m, a, b, k)->0 == m,
        k > c0 ==> (cross_upto(m, a, b, k)->0)[a][b] == dec_div(ra, rb) && dec_div(ra, rb) is Some
            && (cross_upto(m, a, b, k)->0)[b][a] is Some,
        k > c0 && !(c0 < a < k) && !(c0 < b < k)
            ==> (cross_upto(m, a, b, k)->0)[b][a] == dec_div(rb, ra),
    decreases k,
{
    if k > 0 {
        lemma_cross_unique_common(m, n, a, b, c0, ra, rb, k - 1);
        let mp = cross_upto(m, a, b, k - 1)->0;
        let c = k - 1;
        lemma_cross_via_frame(mp, n, a, b, c);
        let mk = cross_via(mp, a, b, c)->0;
        assert(cross_upto(m, a, b, k) == cross_via(mp, a, b, c));
        if c < c0 {
            assert(mp == m);
            if c != a && c != b {
                assert(common_rates(m, a, b, c) is None);
            }
            assert(common_rates(m, a, b, c) is None);
            assert(mk == m);
        } else if c == c0 {
            assert(mp == m);
            assert(common_rates(m, a, b, c) == Some((ra, rb)));
            match dec_div(rb, ra) {
                Some(f) => {
                    lemma_set_rate_square(m, n, b, a, Some(f));
                    let m1 = set_rate(m, b, a, Some(f));
                    assert(m1[a][b] is None);
                    match dec_div(ra, rb) {
                        Some(g) => {
                            lemma_set_rate_square(m1, n, a, b, Some(g));
                            assert(mk == set_rate(m1, a, b, Some(g)));
                            assert(mk[a][b] == Some(g));
                            assert(mk[b][a] == Some(f));
                        },
                        None => {},
                    }
                },
                None => {},
            }
        } else {
            if c != a && c != b {
                assert(mp[a][c] == m[a][c]);
                assert(mp[b][c] == m[b][c]);
                assert(mp[c][a] == m[c][a]);
                assert(mp[c][b] == m[c][b]);
                assert(common_rates(m, a, b, c) is None);
                assert(common_rates(mp, a, b, c) is None);
                assert(mk == mp);
            }
            assert(mp[a][b] is Some);
            assert(mk[a][b] == mp[a][b]);
            assert(mk[b][a] is Some);
        }
    }
}

proof fn lemma_run_pairs_split(m: Rates, ps: Seq<(int, int)>, j: int, step: spec_fn(Rates, int, int) -> Option<Rates>)
    requires
        0 <= j <= ps.len(),
    ensures
        run_pairs(m, ps, step) == (match run_pairs(m, ps.take(j), step) {
            Some(mj) => run_pairs(mj, ps.skip(j), step),
            None => None,
        }),
    decreases ps.len(),
{
    if j == ps.len() {
        assert(ps.take(j) =~= ps);
        assert(ps.skip(j).len() == 0);
        match run_pairs(m, ps.take(j), step) {
            Some(mj) => {},
            None => {},
        }
    } else {
        let dl = ps.drop_last();
        lemma_run_pairs_split(m, dl, j, step);
        assert(dl.take(j) =~= ps.take(j));
        assert(ps.skip(j).drop_last() =~= dl.skip(j));
        assert(ps.skip(j).last() == ps.last());
        match run_pairs(m, ps.take(j), step) {
            Some(mj) => {
                assert(run_pairs(mj, ps.skip(j), step) == match run_pairs(mj, dl.skip(j), step) {
                    Some(m1) => step(m1, ps.last().0, ps.last().1),
                    None => None,
                });
            },
            None => {},
        }
    }
}

proof fn lemma_run_pairs_skip(m: Rates, ps: Seq<(int, int)>, k: int)
    requires
        0 <= k <= ps.len(),
        forall|i: int| 0 <= i < k ==> m[(#[trigger] ps[i]).1][ps[i].0] is Some,
    ensures
        run_pairs(m, ps.take(k), cross_stepper()) == Some(m),
    decreases k,
{
    if k > 0 {
        lemma_run_pairs_skip(m, ps, k - 1);
        assert(ps.take(k).drop_last() =~= ps.take(k - 1));
        assert(ps.take(k).last() == ps[k - 1]);
        assert(m[ps[k - 1].1][ps[k - 1].0] is Some);
    }
}

proof fn lemma_inverse_pass_none(m: Rates, n: nat, ps: Seq<(int, int)>, x: int, y: int)
    requires
        square(m, n),
        0 <= x < n,
        0 <= y < n,
        x != y,
        m[x][y] is None,
        m[y][x] is None,
        forall|k: int| 0 <= k < ps.len() ==> 0 <= (#[trigger] ps[k]).0 < n && 0 <= ps[k].1 < n && ps[k].0 != ps[k].1,
    ensures
        run_pairs(m, ps, inverse_stepper()) matches Some(m2) ==> square(m2, n) && m2[x][y] is None && m2[y][x] is None,
    decreases ps.len(),
{
    let step = inverse_stepper();
    if ps.len() > 0 {
        let pre = ps.drop_last();
        assert forall|k: int| 0 <= k < pre.len() implies 0 <= (#[trigger] pre[k]).0 < n && 0 <= pre[k].1 < n
            && pre[k].0 != pre[k].1 by {
            assert(pre[k] == ps[k]);
        }
        lemma_inverse_pass_none(m, n, pre, x, y);
        match run_pairs(m, pre, step) {
            Some(m1) => {
                let (a, b) = ps.last();
                assert(ps.last() == ps[ps.len() - 1]);
                assert(run_pairs(m, ps, step) == inverse_step(m1, a, b));
                match inverse_into(m1, a, b) {
                    Some(ma) => {
                        lemma_inverse_into_frame(m1, n, a, b);
                        lemma_inverse_into_keeps(m1, n, a, b);
                        if (b == x && a == y) || (b == y && a == x) {
                            assert(m1[a][b] is None);
                            assert(ma == m1);
                        }
                        match inverse_into(ma, b, a) {
                            Some(mb) => {
                                lemma_inverse_into_frame(ma, n, b, a);
                                lemma_inverse_into_keeps(ma, n, b, a);
                                if (a == x && b == y) || (a == y && b == x) {
                                    assert(ma[b][a] is None);
                                    assert(mb == ma);
                                }
                            },
                            None => {},
                        }
                    },
                    None => {},
                }
            },
            None => {},
        }
    }
}

proof fn lemma_code_pairs_three()
    ensures
        code_pairs(3, 3) == seq![(0int, 1int), (0int, 2int), (1int, 0int), (1int, 2int), (2int, 0int), (2int, 1int)],
{
    reveal_with_fuel(code_pairs, 4);
    reveal_with_fuel(pairs_in_row, 4);
    assert(pairs_in_row(0, 3) =~= seq![(0int, 1int), (0int, 2int)]);
    assert(pairs_in_row(1, 3) =~= seq![(1int, 0int), (1int, 2int)]);
    assert(pairs_in_row(2, 3) =~= seq![(2int, 0int), (2int, 1int)]);
    assert(code_pairs(3, 3) =~= seq![(0int, 1int), (0int, 2int), (1int, 0int), (1int, 2int), (2int, 0int), (2int, 1int)]);
}


/// A rate through a common currency `c` is a ratio of rates with `c`: where `a` and `b`
/// both have rates `ra` and `rb` to `c`, the step through `c` sets the rate from `b` to `a` to
/// `rb / ra`, and the rate from `a` to `b`, where it was missing, to `ra / rb`; where they do
/// not both have rates to `c` but `c` has rates `sa` and `sb` to both, the rate from `b` to
/// `a` becomes `sb / sa` and the missing rate from `a` to `b` becomes `sa / sb`.
pub proof fn law_cross_rate_is_ratio(m: Rates, n: nat, a: int, b: int, c: int)
    requires
        square(m, n),
        0 <= a < n,
        0 <= b < n,
        0 <= c < n,
        a != b,
    ensures
        cross_via(m, a, b, c) matches Some(m2) ==> {
            &&& (m[a][c] is Some && m[b][c] is Some) ==> {
                &&& m2[b][a] == dec_div(m[b][c]->0, m[a][c]->0)
                &&& m[a][b] is None ==> m2[a][b] == dec_div(m[a][c]->0, m[b][c]->0)
            }
            &&& (!(m[a][c] is Some && m[b][c] is Some) && m[c][a] is Some && m[c][b] is Some) ==> {
                &&& m2[b][a] == dec_div(m[c][b]->0, m[c][a]->0)
                &&& m[a][b] is None ==> m2[a][b] == dec_div(m[c][a]->0, m[c][b]->0)
            }
        },
{
    match common_rates(m, a, b, c) {
        None => {},
        Some(rs) => match dec_div(rs.1, rs.0) {
            None => {},
            Some(f) => {
                lemma_set_rate_square(m, n, b, a, Some(f));
                let m1 = set_rate(m, b, a, Some(f));
                if m1[a][b] is None {
                    match dec_div(rs.0, rs.1) {
                        Some(g) => lemma_set_rate_square(m1, n, a, b, Some(g)),
                        None => {},
                    }
                }
            },
        },
    }
}

/// Where the quotes name exactly three currencies `from`, `to` and `cur`, and `from` and `to`
/// are each quoted against `cur` but not against each other, the exchange rate from `from`
/// to `to` is the ratio of their rates to `cur` in the table completed with inverse rates,
/// `p_from / p_to`, wherever it can be computed, provided `from` appears before `to` among
/// the quoted codes or `cur` appears after both (otherwise the reverse rate computed first
/// is inverted once more).
pub proof fn law_cross_rate_three_currencies(
    from: Seq<char>,
    to: Seq<char>,
    cur: Seq<char>,
    price_type: PriceType,
    bid: Seq<(Seq<char>, Dec)>,
    ask: Seq<(Seq<char>, Dec)>,
    qs: Seq<(Seq<char>, Dec)>,
)
    requires
        calculation_quotes(price_type, bid, ask) == Some(qs),
        codes_of(qs).len() == 3,
        codes_of(qs).contains(from),
        codes_of(qs).contains(to),
        codes_of(qs).contains(cur),
        from != to,
        from != cur,
        to != cur,
        last_quote_for(qs, from, to) is None,
        last_quote_for(qs, to, from) is None,
        last_quote_for(qs, from, cur) is Some || last_quote_for(qs, cur, from) is Some,
        last_quote_for(qs, to, cur) is Some || last_quote_for(qs, cur, to) is Some,
        codes_of(qs).index_of(from) < codes_of(qs).index_of(to) || (codes_of(qs).index_of(cur)
            > codes_of(qs).index_of(from) && codes_of(qs).index_of(cur) > codes_of(qs).index_of(to)),
    ensures
        ({
            let cs = codes_of(qs);
            let f = cs.index_of(from);
            let t = cs.index_of(to);
            let c = cs.index_of(cur);
            with_inverses_spec(table_of(qs, cs)) matches Some(m2) ==> {
                &&& m2[f][c] is Some
                &&& m2[t][c] is Some
                &&& exchange_rate(from, to, price_type, bid, ask) matches Some(r)
                    ==> Some(r) == dec_div(m2[f][c]->0, m2[t][c]->0)
            }
        }),
{
    let cs = codes_of(qs);
    let n: nat = 3;
    lemma_codes_of_no_duplicates(qs);
    assert forall|k: int| 0 <= k < qs.len() implies cs.contains(symbol_base((#[trigger] qs[k]).0))
        && cs.contains(symbol_quote(qs[k].0)) by {
        lemma_codes_contain_quote(qs, k);
    }
    lemma_index_of(cs, from);
    lemma_index_of(cs, to);
    lemma_index_of(cs, cur);
    let f = cs.index_of(from);
    let t = cs.index_of(to);
    let c = cs.index_of(cur);
    assert(f != t && f != c && t != c);
    lemma_table_entry(qs, cs, from, to);
    lemma_table_entry(qs, cs, to, from);
    lemma_table_entry(qs, cs, from, cur);
    lemma_table_entry(qs, cs, cur, from);
    lemma_table_entry(qs, cs, to, cur);
    lemma_table_entry(qs, cs, cur, to);
    let m1 = table_of(qs, cs);
    let ps = code_pairs(3, 3);
    lemma_code_pairs_bounds(n, 3);
    lemma_code_pairs_three();
    law_inverses_keep_rates(m1, n);
    law_inverses_pair_up(m1, n);
    lemma_inverse_pass_none(m1, n, ps, f, t);
    match with_inverses_spec(m1) {
        Some(m2) => {
            assert(m2[f][c] is Some && m2[c][f] is Some);
            assert(m2[t][c] is Some && m2[c][t] is Some);
            assert(m2[f][t] is None && m2[t][f] is None);
            assert(rate_in(cs, m2, from, to) is None);
            let a = if f < t { f } else { t };
            let b = if f < t { t } else { f };
            let ra = m2[a][c]->0;
            let rb = m2[b][c]->0;
            // the position of the pair (a, b) among the pairs, and every pair before it has
            // rates both ways
            let kk: int = if a == 0 && b == 1 { 0 } else if a == 0 && b == 2 { 1 } else { 3 };
            assert(ps[kk] == (a, b));
            assert forall|i: int| 0 <= i < kk implies m2[(#[trigger] ps[i]).1][ps[i].0] is Some by {
                let (x, y) = ps[i];
                assert(x == c || y == c);
            }
            lemma_run_pairs_skip(m2, ps, kk);
            let cross = cross_stepper();
            lemma_run_pairs_split(m2, ps, kk + 1, cross);
            assert(ps.take(kk + 1).drop_last() =~= ps.take(kk));
            assert(ps.take(kk + 1).last() == ps[kk]);
            assert(run_pairs(m2, ps.take(kk + 1), cross) == cross_step(m2, a, b));
            assert(cross_step(m2, a, b) == cross_upto(m2, a, b, 3));
            assert forall|cc: int| 0 <= cc < n && cc != a && cc != b && cc != c implies
                #[trigger] common_rates(m2, a, b, cc) is None by {}
            match cross_upto(m2, a, b, 3) {
                Some(mk) => {
                    lemma_cross_unique_common(m2, n, a, b, c, ra, rb, 3);
                    let sfx = ps.skip(kk + 1);
                    assert forall|i: int| 0 <= i < sfx.len() implies 0 <= (#[trigger] sfx[i]).0 < n
                        && 0 <= sfx[i].1 < n && sfx[i].0 != sfx[i].1 by {
                        assert(sfx[i] == ps[i + kk + 1]);
                    }
                    assert forall|m3: Rates, x: int, y: int|
                        square(m3, n) && 0 <= x < n && 0 <= y < n && x != y && (#[trigger] cross(m3, x, y)) is Some
                            implies square(cross(m3, x, y)->0, n) && keeps_rates(m3, cross(m3, x, y)->0) by {
                        lemma_cross_step_keeps(m3, n, x, y);
                    }
                    lemma_run_pairs_keeps(mk, n, sfx, cross);
                    assert(with_cross_rates_spec(m2) == run_pairs(mk, sfx, cross));
                    match with_cross_rates_spec(m2) {
                        Some(m3) => {
                            assert(m3[a][b] == mk[a][b]);
                            assert(m3[b][a] == mk[b][a]);
                            assert(rate_in(cs, m3, from, to) == m3[f][t]);
                        },
                        None => {},
                    }
                },
                None => {},
            }
        },
        None => {},
    }
}

} // verus!
