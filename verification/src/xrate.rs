//! Exchange rates between currencies, derived from bid and ask quotes of currency pairs.
//!
//! The rates are kept in a square table indexed by currency codes: the entry in row `x`
//! and column `y` is the number of units of `y` one unit of `x` buys. The table is built
//! from the quotes, completed with inverse rates, and then with rates through a common
//! currency.

use vstd::prelude::*;
use crate::decimal::{checked_add, checked_div, dec_add, dec_div, spec_one, spec_two, spec_zero, Dec};
use crate::text::{chars_eq, chars_of, copy_chars, split_symbol, symbol_base, symbol_quote};

verus! {

/// A square table of optional rates.
pub type Rates = Seq<Seq<Option<Dec>>>;

/// The table as sequences.
pub open spec fn rows_view(rows: Seq<Vec<Option<Dec>>>) -> Rates {
    rows.map_values(|r: Vec<Option<Dec>>| r@)
}

/// The codes as character sequences.
pub open spec fn codes_view(codes: Seq<Vec<char>>) -> Seq<Seq<char>> {
    codes.map_values(|c: Vec<char>| c@)
}

/// `m` with the entry at row `i`, column `j` replaced by `v`.
pub open spec fn set_rate(m: Rates, i: int, j: int, v: Option<Dec>) -> Rates {
    m.update(i, m[i].update(j, v))
}

/// Whether `m` is an `n` by `n` table whose rates are all well-formed decimals.
pub open spec fn rates_wf(m: Rates, n: nat) -> bool {
    &&& m.len() == n
    &&& forall|i: int| 0 <= i < n ==> #[trigger] m[i].len() == n
    &&& forall|i: int, j: int| 0 <= i < n && 0 <= j < n && (#[trigger] m[i][j]) is Some ==> m[i][j]->0.wf()
}

/// The `n` by `n` table without any rate.
pub open spec fn empty_rates(n: nat) -> Rates {
    Seq::new(n, |i: int| Seq::new(n, |j: int| None::<Dec>))
}

/// `cs` with `c` appended unless it already holds it.
pub open spec fn add_code(cs: Seq<Seq<char>>, c: Seq<char>) -> Seq<Seq<char>> {
    if cs.contains(c) { cs } else { cs.push(c) }
}

/// The currency codes that the quoted symbols name, in order of first appearance
/// (for each symbol its base code, then its quote code).
pub open spec fn codes_of(qs: Seq<(Seq<char>, Dec)>) -> Seq<Seq<char>>
    decreases qs.len(),
{
    if qs.len() == 0 {
        Seq::empty()
    } else {
        let q = qs.last();
        add_code(add_code(codes_of(qs.drop_last()), symbol_base(q.0)), symbol_quote(q.0))
    }
}

/// What a quote of symbol `BASE/QUOTE` at price `p` writes into the table: the rate of
/// `BASE` to itself becomes one, of `BASE` to `QUOTE` becomes `p`, and of `QUOTE` to itself
/// becomes one, in this order.
pub open spec fn quote_step(m: Rates, cs: Seq<Seq<char>>, q: (Seq<char>, Dec)) -> Rates {
    let a = cs.index_of(symbol_base(q.0));
    let b = cs.index_of(symbol_quote(q.0));
    set_rate(set_rate(set_rate(m, a, a, Some(spec_one())), a, b, Some(q.1)), b, b, Some(spec_one()))
}

/// The table that the quotes write, in order, into the empty table over `cs`.
pub open spec fn table_of(qs: Seq<(Seq<char>, Dec)>, cs: Seq<Seq<char>>) -> Rates
    decreases qs.len(),
{
    if qs.len() == 0 {
        empty_rates(cs.len())
    } else {
        quote_step(table_of(qs.drop_last(), cs), cs, qs.last())
    }
}

/// The rates between currencies, over the codes that name its rows and columns.
pub struct RateTable {
    pub codes: Vec<Vec<char>>,
    pub rates: Vec<Vec<Option<Dec>>>,
}

impl RateTable {
    pub open spec fn codes_spec(&self) -> Seq<Seq<char>> {
        codes_view(self.codes@)
    }

    pub open spec fn rates_spec(&self) -> Rates {
        rows_view(self.rates@)
    }

    /// The codes are distinct and the table is square over them, with well-formed rates.
    pub open spec fn wf(&self) -> bool {
        &&& self.codes_spec().no_duplicates()
        &&& rates_wf(self.rates_spec(), self.codes@.len())
    }
}

/// Replaces the entry at row `i`, column `j`.
fn set_entry(rates: &mut Vec<Vec<Option<Dec>>>, i: usize, j: usize, v: Option<Dec>)
    requires
        i < old(rates).len(),
        j < old(rates)@[i as int].len(),
    ensures
        rows_view(final(rates)@) == set_rate(rows_view(old(rates)@), i as int, j as int, v),
{
    rates[i][j] = v;
    assert(rows_view(rates@) =~= set_rate(rows_view(old(rates)@), i as int, j as int, v));
}

/// The quotes with their symbols as character sequences.
pub open spec fn quotes_view(qs: Seq<(Vec<char>, Dec)>) -> Seq<(Seq<char>, Dec)> {
    qs.map_values(|q: (Vec<char>, Dec)| (q.0@, q.1))
}

/// Whether every quoted price is a well-formed decimal.
pub open spec fn quotes_wf(qs: Seq<(Seq<char>, Dec)>) -> bool {
    forall|k: int| 0 <= k < qs.len() ==> (#[trigger] qs[k]).1.wf()
}

/// The position of `c` among `codes`, if it is there.
pub fn find_code(codes: &Vec<Vec<char>>, c: &Vec<char>) -> (r: Option<usize>)
    requires
        codes_view(codes@).no_duplicates(),
    ensures
        r is None <==> !codes_view(codes@).contains(c@),
        r matches Some(i) ==> i < codes.len() && i as int == codes_view(codes@).index_of(c@),
{
    let n = codes.len();
    for i in 0..n
        invariant
            n == codes.len(),
            codes_view(codes@).no_duplicates(),
            forall|k: int| 0 <= k < i ==> codes_view(codes@)[k] != c@,
    {
        if chars_eq(&codes[i], c) {
            proof {
                let cs = codes_view(codes@);
                assert(cs[i as int] == c@);
                let k = cs.index_of(c@);
                if k != i as int {
                    // codes are distinct
                    assert(cs[k] != cs[i as int]);
                }
            }
            return Some(i);
        }
    }
    proof {
        let cs = codes_view(codes@);
        assert forall|k: int| 0 <= k < cs.len() implies cs[k] != c@ by {}
    }
    None
}

/// Appends `c` to `codes` unless they already hold it.
fn push_code(codes: &mut Vec<Vec<char>>, c: Vec<char>)
    requires
        codes_view(old(codes)@).no_duplicates(),
    ensures
        codes_view(final(codes)@) == add_code(codes_view(old(codes)@), c@),
        codes_view(final(codes)@).no_duplicates(),
{
    if find_code(codes, &c).is_none() {
        let ghost c0 = c@;
        codes.push(c);
        assert(codes_view(codes@) =~= codes_view(old(codes)@).push(c0));
    }
}

/// The codes of the quotes include the base and quote codes of each quoted symbol.
pub proof fn lemma_codes_contain_quote(qs: Seq<(Seq<char>, Dec)>, k: int)
    requires
        0 <= k < qs.len(),
    ensures
        codes_of(qs).contains(symbol_base(qs[k].0)),
        codes_of(qs).contains(symbol_quote(qs[k].0)),
    decreases qs.len(),
{
    let cs0 = codes_of(qs.drop_last());
    let q = qs.last();
    let cs1 = add_code(cs0, symbol_base(q.0));
    let cs2 = add_code(cs1, symbol_quote(q.0));
    assert(cs2 == codes_of(qs));
    assert forall|c: Seq<char>| cs0.contains(c) implies cs2.contains(c) by {
        let i = choose|i: int| 0 <= i < cs0.len() && cs0[i] == c;
        assert(cs1[i] == c);
        assert(cs2[i] == c);
    }
    if cs1.contains(symbol_base(q.0)) {
        let i = choose|i: int| 0 <= i < cs1.len() && cs1[i] == symbol_base(q.0);
        assert(cs2[i] == symbol_base(q.0));
    } else {
        assert(cs1[cs0.len() as int] == symbol_base(q.0));
    }
    if cs1.contains(symbol_quote(q.0)) {
    } else {
        assert(cs2[cs1.len() as int] == symbol_quote(q.0));
    }
    if k < qs.len() - 1 {
        lemma_codes_contain_quote(qs.drop_last(), k);
        assert(qs.drop_last()[k] == qs[k]);
    }
}

proof fn lemma_empty_rates_wf(n: nat)
    ensures
        rates_wf(empty_rates(n), n),
{
}

/// Whether every rate in the `n` by `n` table `m` is non-negative.
pub open spec fn rates_nonneg(m: Rates, n: nat) -> bool {
    forall|i: int, j: int| 0 <= i < n && 0 <= j < n && (#[trigger] m[i][j]) is Some ==> m[i][j]->0.mantissa >= 0
}

/// Whether every quoted price is non-negative.
pub open spec fn quotes_nonneg(qs: Seq<(Seq<char>, Dec)>) -> bool {
    forall|k: int| 0 <= k < qs.len() ==> (#[trigger] qs[k]).1.mantissa >= 0
}

proof fn lemma_set_rate_wf(m: Rates, n: nat, i: int, j: int, v: Option<Dec>)
    requires
        rates_wf(m, n),
        0 <= i < n,
        0 <= j < n,
        v matches Some(d) ==> d.wf(),
    ensures
        rates_wf(set_rate(m, i, j, v), n),
        rates_nonneg(m, n) && (v matches Some(d) ==> d.mantissa >= 0) ==> rates_nonneg(set_rate(m, i, j, v), n),
{
    let m2 = set_rate(m, i, j, v);
    assert forall|a: int| 0 <= a < n implies #[trigger] m2[a].len() == n by {}
    assert forall|a: int, b: int| 0 <= a < n && 0 <= b < n && (#[trigger] m2[a][b]) is Some implies m2[a][b]->0.wf() by {
        if a == i && b == j {
        } else {
            assert(m2[a][b] == m[a][b]);
        }
    }
    if rates_nonneg(m, n) && (v matches Some(d) ==> d.mantissa >= 0) {
        assert forall|a: int, b: int| 0 <= a < n && 0 <= b < n && (#[trigger] m2[a][b]) is Some implies m2[a][b]->0.mantissa >= 0 by {
            if a == i && b == j {
            } else {
                assert(m2[a][b] == m[a][b]);
            }
        }
    }
}

impl RateTable {
    /// Builds the table that the quotes give directly: every code of a quoted symbol gets a
    /// row and a column, and each quote of `BASE/QUOTE` at price `p` sets the rate of `BASE`
    /// and of `QUOTE` to themselves to one and the rate of `BASE` to `QUOTE` to `p`, the
    /// quotes taken in order.
    pub fn from_quotes(quotes: &Vec<(Vec<char>, Dec)>) -> (t: RateTable)
        requires
            quotes_wf(quotes_view(quotes@)),
        ensures
            t.wf(),
            t.codes_spec() == codes_of(quotes_view(quotes@)),
            t.rates_spec() == table_of(quotes_view(quotes@), codes_of(quotes_view(quotes@))),
            quotes_nonneg(quotes_view(quotes@)) ==> rates_nonneg(t.rates_spec(), t.codes@.len()),
    {
        let ghost qs = quotes_view(quotes@);
        let nq = quotes.len();
        let mut codes: Vec<Vec<char>> = Vec::new();
        for k in 0..nq
            invariant
                nq == quotes.len(),
                qs == quotes_view(quotes@),
                codes_view(codes@) == codes_of(qs.take(k as int)),
                codes_view(codes@).no_duplicates(),
        {
            let (base, quote) = split_symbol(&quotes[k].0);
            push_code(&mut codes, base);
            push_code(&mut codes, quote);
            assert(qs.take(k + 1).drop_last() =~= qs.take(k as int));
            assert(qs.take(k + 1).last() == qs[k as int]);
        }
        assert(qs.take(nq as int) =~= qs);
        let ghost cs = codes_view(codes@);
        let n = codes.len();
        let mut rates: Vec<Vec<Option<Dec>>> = Vec::new();
        for i in 0..n
            invariant
                rates@.len() == i,
                forall|a: int| 0 <= a < i ==> (#[trigger] rates@[a])@ == Seq::new(n as nat, |j: int| None::<Dec>),
        {
            let mut row: Vec<Option<Dec>> = Vec::new();
            for j in 0..n
                invariant
                    row@ == Seq::new(j as nat, |b: int| None::<Dec>),
            {
                row.push(None);
                assert(row@ =~= Seq::new((j + 1) as nat, |b: int| None::<Dec>));
            }
            rates.push(row);
        }
        assert(rows_view(rates@) =~= empty_rates(n as nat));
        proof {
            lemma_empty_rates_wf(n as nat);
        }
        for k in 0..nq
            invariant
                nq == quotes.len(),
                qs == quotes_view(quotes@),
                quotes_wf(qs),
                n == codes.len(),
                cs == codes_view(codes@),
                cs == codes_of(qs),
                cs.no_duplicates(),
                rows_view(rates@) == table_of(qs.take(k as int), cs),
                rates_wf(rows_view(rates@), n as nat),
                quotes_nonneg(qs) ==> rates_nonneg(rows_view(rates@), n as nat),
        {
            let (base, quote) = split_symbol(&quotes[k].0);
            proof {
                assert(qs[k as int] == (quotes@[k as int].0@, quotes@[k as int].1));
                lemma_codes_contain_quote(qs, k as int);
            }
            let a = find_code(&codes, &base).unwrap();
            let b = find_code(&codes, &quote).unwrap();
            let price = quotes[k].1;
            assert(qs[k as int].1.wf());
            assert(qs[k as int].1 == price);
            let ghost m0 = rows_view(rates@);
            assert(m0[a as int] == rates@[a as int]@);
            set_entry(&mut rates, a, a, Some(Dec::one()));
            proof { lemma_set_rate_wf(m0, n as nat, a as int, a as int, Some(Dec { mantissa: 1, scale: 0 })); }
            let ghost m1 = rows_view(rates@);
            assert(m1[a as int] == rates@[a as int]@);
            set_entry(&mut rates, a, b, Some(price));
            proof { lemma_set_rate_wf(m1, n as nat, a as int, b as int, Some(price)); }
            let ghost m2 = rows_view(rates@);
            assert(m2[b as int] == rates@[b as int]@);
            set_entry(&mut rates, b, b, Some(Dec::one()));
            proof {
                lemma_set_rate_wf(m2, n as nat, b as int, b as int, Some(Dec { mantissa: 1, scale: 0 }));
                assert(qs.take(k + 1).drop_last() =~= qs.take(k as int));
                assert(qs.take(k + 1).last() == qs[k as int]);
                assert(base@ == symbol_base(qs[k as int].0));
                assert(quote@ == symbol_quote(qs[k as int].0));
                assert(rows_view(rates@) == quote_step(m0, cs, qs[k as int]));
            }
        }
        assert(qs.take(nq as int) =~= qs);
        RateTable { codes, rates }
    }
}


/// The pairs `(a, b)` with `b < j` and `b != a`, in increasing `b`.
pub open spec fn pairs_in_row(a: int, j: int) -> Seq<(int, int)>
    decreases j,
{
    if j <= 0 {
        Seq::empty()
    } else if j - 1 == a {
        pairs_in_row(a, j - 1)
    } else {
        pairs_in_row(a, j - 1).push((a, j - 1))
    }
}

/// The pairs of distinct indices below `n` whose first index is below `i`, row by row: the
/// pairs of different codes of the cartesian product of the codes with themselves.
pub open spec fn code_pairs(n: int, i: int) -> Seq<(int, int)>
    decreases i,
{
    if i <= 0 {
        Seq::empty()
    } else {
        code_pairs(n, i - 1) + pairs_in_row(i - 1, n)
    }
}

/// The pairs as integers.
pub open spec fn pairs_view(ps: Seq<(usize, usize)>) -> Seq<(int, int)> {
    ps.map_values(|p: (usize, usize)| (p.0 as int, p.1 as int))
}

/// The pairs of distinct indices below `n`, row by row.
fn make_code_pairs(n: usize) -> (ps: Vec<(usize, usize)>)
    ensures
        pairs_view(ps@) == code_pairs(n as int, n as int),
        forall|k: int| 0 <= k < ps.len() ==> (#[trigger] ps@[k]).0 < n && ps@[k].1 < n && ps@[k].0 != ps@[k].1,
{
    let mut ps: Vec<(usize, usize)> = Vec::new();
    for a in 0..n
        invariant
            pairs_view(ps@) == code_pairs(n as int, a as int),
            forall|k: int| 0 <= k < ps.len() ==> (#[trigger] ps@[k]).0 < n && ps@[k].1 < n && ps@[k].0 != ps@[k].1,
    {
        let ghost before = pairs_view(ps@);
        for b in 0..n
            invariant
                a < n,
                pairs_view(ps@) == before + pairs_in_row(a as int, b as int),
                forall|k: int| 0 <= k < ps.len() ==> (#[trigger] ps@[k]).0 < n && ps@[k].1 < n && ps@[k].0 != ps@[k].1,
        {
            if a != b {
                let ghost old_ps = ps@;
                ps.push((a, b));
                assert(pairs_view(ps@) =~= pairs_view(old_ps).push((a as int, b as int)));
                assert(pairs_view(ps@) =~= before + pairs_in_row(a as int, b + 1));
            } else {
                assert(pairs_view(ps@) =~= before + pairs_in_row(a as int, b + 1));
            }
        }
    }
    ps
}

/// Runs `step` on each pair in order, starting from `m`; `None` once a step fails.
pub open spec fn run_pairs(
    m: Rates,
    ps: Seq<(int, int)>,
    step: spec_fn(Rates, int, int) -> Option<Rates>,
) -> Option<Rates>
    decreases ps.len(),
{
    if ps.len() == 0 {
        Some(m)
    } else {
        match run_pairs(m, ps.drop_last(), step) {
            Some(m1) => step(m1, ps.last().0, ps.last().1),
            None => None,
        }
    }
}

proof fn lemma_run_pairs_fails(
    m: Rates,
    ps: Seq<(int, int)>,
    k: int,
    step: spec_fn(Rates, int, int) -> Option<Rates>,
)
    requires
        0 <= k <= ps.len(),
        run_pairs(m, ps.take(k), step) is None,
    ensures
        run_pairs(m, ps, step) is None,
    decreases ps.len() - k,
{
    if k < ps.len() {
        assert(ps.take(k + 1).drop_last() =~= ps.take(k));
        lemma_run_pairs_fails(m, ps, k + 1, step);
    } else {
        assert(ps.take(k) =~= ps);
    }
}

/// Where the table has a rate from `a` to `b` and none from `b` to `a`, the rate from `b`
/// to `a` becomes one over it; `None` where that division fails.
pub open spec fn inverse_into(m: Rates, a: int, b: int) -> Option<Rates> {
    match m[a][b] {
        Some(r) => if m[b][a] is None {
            match dec_div(spec_one(), r) {
                Some(x) => Some(set_rate(m, b, a, Some(x))),
                None => None,
            }
        } else {
            Some(m)
        },
        None => Some(m),
    }
}

/// The inverse rates for the pair `(a, b)`: first from `b` to `a`, then from `a` to `b`.
pub open spec fn inverse_step(m: Rates, a: int, b: int) -> Option<Rates> {
    match inverse_into(m, a, b) {
        Some(m1) => inverse_into(m1, b, a),
        None => None,
    }
}

/// The table completed with inverse rates over all pairs of distinct codes, in order.
pub open spec fn with_inverses_spec(m: Rates) -> Option<Rates> {
    run_pairs(m, code_pairs(m.len() as int, m.len() as int), inverse_stepper())
}

/// `inverse_step` as a function value.
pub open spec fn inverse_stepper() -> spec_fn(Rates, int, int) -> Option<Rates> {
    |m: Rates, a: int, b: int| inverse_step(m, a, b)
}

impl RateTable {
    fn invert_into(&mut self, a: usize, b: usize) -> (ok: bool)
        requires
            old(self).wf(),
            a < old(self).codes.len(),
            b < old(self).codes.len(),
        ensures
            final(self).codes == old(self).codes,
            match inverse_into(old(self).rates_spec(), a as int, b as int) {
                Some(m) => ok && final(self).rates_spec() == m && final(self).wf(),
                None => !ok,
            },
            ok && rates_nonneg(old(self).rates_spec(), old(self).codes@.len()) ==> rates_nonneg(final(self).rates_spec(), old(self).codes@.len()),
    {
        let ghost m = self.rates_spec();
        let ghost n = self.codes@.len();
        assert(m[a as int] == self.rates@[a as int]@);
        assert(m[b as int] == self.rates@[b as int]@);
        match self.rates[a][b] {
            Some(r) => {
                if self.rates[b][a].is_none() {
                    assert(m[a as int][b as int] is Some);
                    assert(rates_nonneg(m, n) ==> r.mantissa >= 0);
                    match checked_div(Dec::one(), r) {
                        Some(x) => {
                            set_entry(&mut self.rates, b, a, Some(x));
                            proof { lemma_set_rate_wf(m, n, b as int, a as int, Some(x)); }
                            true
                        },
                        None => false,
                    }
                } else {
                    true
                }
            },
            None => true,
        }
    }

    /// Completes the table with inverse rates: for each pair of distinct codes `(a, b)`, in
    /// order, a rate from `a` to `b` gives a rate from `b` to `a` of one over it where there is
    /// none, and then a rate from `b` to `a` gives one from `a` to `b` likewise. `None` where a
    /// division fails.
    pub fn with_inverses(self) -> (r: Option<RateTable>)
        requires
            self.wf(),
        ensures
            match with_inverses_spec(self.rates_spec()) {
                Some(m) => r matches Some(t) && t.wf() && t.codes == self.codes && t.rates_spec() == m,
                None => r is None,
            },
            rates_nonneg(self.rates_spec(), self.codes@.len()) ==> (r matches Some(t) ==> rates_nonneg(t.rates_spec(), t.codes@.len())),
    {
        let n = self.codes.len();
        let ghost m0 = self.rates_spec();
        let ghost step = inverse_stepper();
        let ps = make_code_pairs(n);
        let ghost psv = pairs_view(ps@);
        assert(m0.len() == n);
        let mut t = self;
        let np = ps.len();
        for k in 0..np
            invariant
                np == ps.len(),
                psv == pairs_view(ps@),
                psv == code_pairs(n as int, n as int),
                forall|k: int| 0 <= k < ps.len() ==> (#[trigger] ps@[k]).0 < n && ps@[k].1 < n && ps@[k].0 != ps@[k].1,
                t.wf(),
                t.codes@.len() == n,
                t.codes == self.codes,
                step == inverse_stepper(),
                m0 == self.rates_spec(),
                m0.len() == n,
                run_pairs(m0, psv.take(k as int), step) == Some(t.rates_spec()),
                rates_nonneg(m0, n as nat) ==> rates_nonneg(t.rates_spec(), n as nat),
        {
            let (a, b) = ps[k];
            assert(psv.take(k + 1).drop_last() =~= psv.take(k as int));
            assert(psv[k as int] == (a as int, b as int));
            let ghost before = t.rates_spec();
            assert(psv.take(k + 1).last() == psv[k as int]);
            assert(run_pairs(m0, psv.take(k + 1).drop_last(), step) == Some(before));
            assert(step(before, a as int, b as int) == inverse_step(before, a as int, b as int));
            assert(run_pairs(m0, psv.take(k + 1), step) == step(before, a as int, b as int));
            if !t.invert_into(a, b) {
                proof { lemma_run_pairs_fails(m0, psv, k + 1, step); }
                return None;
            }
            if !t.invert_into(b, a) {
                proof { lemma_run_pairs_fails(m0, psv, k + 1, step); }
                return None;
            }
        }
        assert(psv.take(np as int) =~= psv);
        Some(t)
    }
}


/// The rates through the common currency `c` for the pair `(a, b)`: the rates from `a` and
/// from `b` to `c` where the table has both, or else the rates from `c` to `a` and to `b`
/// where it has both.
pub open spec fn common_rates(m: Rates, a: int, b: int, c: int) -> Option<(Dec, Dec)> {
    if m[a][c] is Some && m[b][c] is Some {
        Some((m[a][c]->0, m[b][c]->0))
    } else if m[c][a] is Some && m[c][b] is Some {
        Some((m[c][a]->0, m[c][b]->0))
    } else {
        None
    }
}

/// Where the pair `(a, b)` has common rates `(r1, r2)` through `c`, the rate from `b` to `a`
/// becomes `r2 / r1`, and then, where the table has no rate from `a` to `b`, that rate
/// becomes `r1 / r2`; `None` where a division fails.
pub open spec fn cross_via(m: Rates, a: int, b: int, c: int) -> Option<Rates> {
    match common_rates(m, a, b, c) {
        None => Some(m),
        Some(rs) => match dec_div(rs.1, rs.0) {
            None => None,
            Some(f) => {
                let m1 = set_rate(m, b, a, Some(f));
                if m1[a][b] is None {
                    match dec_div(rs.0, rs.1) {
                        Some(g) => Some(set_rate(m1, a, b, Some(g))),
                        None => None,
                    }
                } else {
                    Some(m1)
                }
            },
        },
    }
}

/// `cross_via` for the pair `(a, b)` through each code below `k`, in order.
pub open spec fn cross_upto(m: Rates, a: int, b: int, k: int) -> Option<Rates>
    decreases k,
{
    if k <= 0 {
        Some(m)
    } else {
        match cross_upto(m, a, b, k - 1) {
            Some(m1) => cross_via(m1, a, b, k - 1),
            None => None,
        }
    }
}

/// The cross rates for the pair `(a, b)`: nothing where the table has a rate from `b` to
/// `a`, else `cross_via` through every code in order.
pub open spec fn cross_step(m: Rates, a: int, b: int) -> Option<Rates> {
    if m[b][a] is Some {
        Some(m)
    } else {
        cross_upto(m, a, b, m.len() as int)
    }
}

/// `cross_step` as a function value.
pub open spec fn cross_stepper() -> spec_fn(Rates, int, int) -> Option<Rates> {
    |m: Rates, a: int, b: int| cross_step(m, a, b)
}

/// The table completed with rates through common currencies over all pairs of distinct
/// codes, in order.
pub open spec fn with_cross_rates_spec(m: Rates) -> Option<Rates> {
    run_pairs(m, code_pairs(m.len() as int, m.len() as int), cross_stepper())
}

proof fn lemma_cross_upto_fails(m: Rates, a: int, b: int, j: int, k: int)
    requires
        0 <= j <= k,
        cross_upto(m, a, b, j) is None,
    ensures
        cross_upto(m, a, b, k) is None,
    decreases k - j,
{
    if j < k {
        lemma_cross_upto_fails(m, a, b, j, k - 1);
    }
}

impl RateTable {
    fn cross_via_code(&mut self, a: usize, b: usize, c: usize) -> (ok: bool)
        requires
            old(self).wf(),
            a < old(self).codes.len(),
            b < old(self).codes.len(),
            c < old(self).codes.len(),
            a != b,
        ensures
            final(self).codes == old(self).codes,
            match cross_via(old(self).rates_spec(), a as int, b as int, c as int) {
                Some(m) => ok && final(self).rates_spec() == m && final(self).wf(),
                None => !ok,
            },
            ok && rates_nonneg(old(self).rates_spec(), old(self).codes@.len()) ==> rates_nonneg(final(self).rates_spec(), old(self).codes@.len()),
    {
        let ghost m = self.rates_spec();
        let ghost n = self.codes@.len();
        assert(m[a as int] == self.rates@[a as int]@);
        assert(m[b as int] == self.rates@[b as int]@);
        assert(m[c as int] == self.rates@[c as int]@);
        let common: Option<(Dec, Dec)> = if self.rates[a][c].is_some() && self.rates[b][c].is_some() {
            Some((self.rates[a][c].unwrap(), self.rates[b][c].unwrap()))
        } else if self.rates[c][a].is_some() && self.rates[c][b].is_some() {
            Some((self.rates[c][a].unwrap(), self.rates[c][b].unwrap()))
        } else {
            None
        };
        assert(common == common_rates(m, a as int, b as int, c as int));
        assert(rates_nonneg(m, n) ==> (common matches Some(rs) ==> rs.0.mantissa >= 0 && rs.1.mantissa >= 0));
        match common {
            None => true,
            Some((r1, r2)) => {
                match checked_div(r2, r1) {
                    None => false,
                    Some(f) => {
                        set_entry(&mut self.rates, b, a, Some(f));
                        proof { lemma_set_rate_wf(m, n, b as int, a as int, Some(f)); }
                        let ghost m1 = self.rates_spec();
                        assert(m1[a as int] == self.rates@[a as int]@);
                        if self.rates[a][b].is_none() {
                            match checked_div(r1, r2) {
                                Some(g) => {
                                    set_entry(&mut self.rates, a, b, Some(g));
                                    proof { lemma_set_rate_wf(m1, n, a as int, b as int, Some(g)); }
                                    true
                                },
                                None => false,
                            }
                        } else {
                            true
                        }
                    },
                }
            },
        }
    }

    fn cross_pair(&mut self, a: usize, b: usize) -> (ok: bool)
        requires
            old(self).wf(),
            a < old(self).codes.len(),
            b < old(self).codes.len(),
            a != b,
        ensures
            final(self).codes == old(self).codes,
            match cross_step(old(self).rates_spec(), a as int, b as int) {
                Some(m) => ok && final(self).rates_spec() == m && final(self).wf(),
                None => !ok,
            },
            ok && rates_nonneg(old(self).rates_spec(), old(self).codes@.len()) ==> rates_nonneg(final(self).rates_spec(), old(self).codes@.len()),
    {
        let ghost m0 = self.rates_spec();
        let n = self.codes.len();
        assert(m0[b as int] == self.rates@[b as int]@);
        if self.rates[b][a].is_some() {
            return true;
        }
        for c in 0..n
            invariant
                n == self.codes.len(),
                a < n,
                b < n,
                a != b,
                self.wf(),
                self.codes == old(self).codes,
                m0 == old(self).rates_spec(),
                m0.len() == n,
                m0[b as int][a as int] is None,
                cross_upto(m0, a as int, b as int, c as int) == Some(self.rates_spec()),
                rates_nonneg(m0, n as nat) ==> rates_nonneg(self.rates_spec(), n as nat),
        {
            if !self.cross_via_code(a, b, c) {
                proof { lemma_cross_upto_fails(m0, a as int, b as int, c + 1, n as int); }
                return false;
            }
        }
        true
    }

    /// Completes the table with rates through common currencies: for each pair of distinct
    /// codes `(a, b)`, in order, that has no rate from `b` to `a`, each code `c` in order
    /// through which the pair has common rates `(r1, r2)` (see `common_rates`) sets the rate
    /// from `b` to `a` to `r2 / r1`, and the rate from `a` to `b`, where there is none, to
    /// `r1 / r2`. `None` where a division fails.
    pub fn with_cross_rates(self) -> (r: Option<RateTable>)
        requires
            self.wf(),
        ensures
            match with_cross_rates_spec(self.rates_spec()) {
                Some(m) => r matches Some(t) && t.wf() && t.codes == self.codes && t.rates_spec() == m,
                None => r is None,
            },
            rates_nonneg(self.rates_spec(), self.codes@.len()) ==> (r matches Some(t) ==> rates_nonneg(t.rates_spec(), t.codes@.len())),
    {
        let n = self.codes.len();
        let ghost m0 = self.rates_spec();
        let ghost step = cross_stepper();
        let ps = make_code_pairs(n);
        let ghost psv = pairs_view(ps@);
        assert(m0.len() == n);
        let mut t = self;
        let np = ps.len();
        for k in 0..np
            invariant
                np == ps.len(),
                psv == pairs_view(ps@),
                psv == code_pairs(n as int, n as int),
                forall|k: int| 0 <= k < ps.len() ==> (#[trigger] ps@[k]).0 < n && ps@[k].1 < n && ps@[k].0 != ps@[k].1,
                t.wf(),
                t.codes@.len() == n,
                t.codes == self.codes,
                step == cross_stepper(),
                m0 == self.rates_spec(),
                m0.len() == n,
                run_pairs(m0, psv.take(k as int), step) == Some(t.rates_spec()),
                rates_nonneg(m0, n as nat) ==> rates_nonneg(t.rates_spec(), n as nat),
        {
            let (a, b) = ps[k];
            assert(psv.take(k + 1).drop_last() =~= psv.take(k as int));
            assert(psv[k as int] == (a as int, b as int));
            let ghost before = t.rates_spec();
            assert(psv.take(k + 1).last() == psv[k as int]);
            assert(run_pairs(m0, psv.take(k + 1), step) == cross_step(before, a as int, b as int));
            if !t.cross_pair(a, b) {
                proof { lemma_run_pairs_fails(m0, psv, k + 1, step); }
                return None;
            }
        }
        assert(psv.take(np as int) =~= psv);
        Some(t)
    }
}


/// The rate from `from` to `to` in the table over `cs`, where both codes are there and the
/// table has a rate.
pub open spec fn rate_in(cs: Seq<Seq<char>>, m: Rates, from: Seq<char>, to: Seq<char>) -> Option<Dec> {
    if cs.contains(from) && cs.contains(to) {
        m[cs.index_of(from)][cs.index_of(to)]
    } else {
        None
    }
}

impl RateTable {
    /// The rate from `from` to `to`, where both codes are in the table and it has a rate.
    pub fn rate(&self, from: &Vec<char>, to: &Vec<char>) -> (r: Option<Dec>)
        requires
            self.wf(),
        ensures
            r == rate_in(self.codes_spec(), self.rates_spec(), from@, to@),
            r matches Some(d) ==> d.wf(),
            rates_nonneg(self.rates_spec(), self.codes@.len()) ==> (r matches Some(d) ==> d.mantissa >= 0),
    {
        match (find_code(&self.codes, from), find_code(&self.codes, to)) {
            (Some(a), Some(b)) => {
                assert(self.rates_spec()[a as int] == self.rates@[a as int]@);
                self.rates[a][b]
            },
            _ => None,
        }
    }
}

/// The price type of a quote.
#[derive(Clone, Copy, Debug, PartialEq, Eq, Structural)]
pub enum PriceType {
    Bid,
    Ask,
    Mid,
    Last,
}

/// A currency: its code (such as `USD`) and the number of decimal places of its amounts.
pub struct Currency {
    pub code: String,
    pub precision: u8,
}

/// The price of the first quote in `ask` whose symbol is `sym`.
pub open spec fn ask_for(ask: Seq<(Seq<char>, Dec)>, sym: Seq<char>) -> Option<Dec>
    decreases ask.len(),
{
    if ask.len() == 0 {
        None
    } else if ask[0].0 == sym {
        Some(ask[0].1)
    } else {
        ask_for(ask.drop_first(), sym)
    }
}

/// The mid price of a bid `v` and an ask `a`: `(v + a) / 2`; `None` where the sum or the
/// division fails.
pub open spec fn mid_value(v: Dec, a: Dec) -> Option<Dec> {
    match dec_add(v, a) {
        Some(sum) => dec_div(sum, spec_two()),
        None => None,
    }
}

/// The mid price of a bid quote: against the ask of the same symbol, or against itself where
/// no ask quotes that symbol.
pub open spec fn mid_quote(q: (Seq<char>, Dec), ask: Seq<(Seq<char>, Dec)>) -> Option<(Seq<char>, Dec)> {
    let a = match ask_for(ask, q.0) {
        Some(a) => a,
        None => q.1,
    };
    match mid_value(q.1, a) {
        Some(v) => Some((q.0, v)),
        None => None,
    }
}

/// The mid quotes for the bid quotes, in order; `None` where a computation fails.
pub open spec fn mid_quotes(bid: Seq<(Seq<char>, Dec)>, ask: Seq<(Seq<char>, Dec)>) -> Option<Seq<(Seq<char>, Dec)>>
    decreases bid.len(),
{
    if bid.len() == 0 {
        Some(Seq::empty())
    } else {
        match mid_quotes(bid.drop_last(), ask) {
            Some(qs) => match mid_quote(bid.last(), ask) {
                Some(q) => Some(qs.push(q)),
                None => None,
            },
            None => None,
        }
    }
}

proof fn lemma_mid_quotes_fails(bid: Seq<(Seq<char>, Dec)>, ask: Seq<(Seq<char>, Dec)>, k: int)
    requires
        0 <= k <= bid.len(),
        mid_quotes(bid.take(k), ask) is None,
    ensures
        mid_quotes(bid, ask) is None,
    decreases bid.len() - k,
{
    if k < bid.len() {
        assert(bid.take(k + 1).drop_last() =~= bid.take(k));
        lemma_mid_quotes_fails(bid, ask, k + 1);
    } else {
        assert(bid.take(k) =~= bid);
    }
}

/// The price of the first ask quote for `sym`.
fn find_ask(ask: &Vec<(Vec<char>, Dec)>, sym: &Vec<char>) -> (r: Option<Dec>)
    ensures
        r == ask_for(quotes_view(ask@), sym@),
{
    let ghost av = quotes_view(ask@);
    let n = ask.len();
    let mut i: usize = 0;
    assert(av.skip(0) =~= av);
    while i < n
        invariant
            n == ask.len(),
            av == quotes_view(ask@),
            i <= n,
            ask_for(av, sym@) == ask_for(av.skip(i as int), sym@),
        decreases n - i,
    {
        assert(av.skip(i as int)[0] == av[i as int]);
        assert(av.skip(i as int).drop_first() =~= av.skip(i + 1));
        if chars_eq(&ask[i].0, sym) {
            return Some(ask[i].1);
        }
        i = i + 1;
    }
    assert(av.skip(n as int) =~= Seq::<(Seq<char>, Dec)>::empty());
    None
}

/// The mid quotes: for each bid quote, in order, the mean of its price and the price of the
/// ask quote of the same symbol (or its own price where no ask quotes that symbol).
/// `None` where a sum or a division fails.
pub fn mid_quotes_of(bid: &Vec<(Vec<char>, Dec)>, ask: &Vec<(Vec<char>, Dec)>) -> (r: Option<Vec<(Vec<char>, Dec)>>)
    requires
        quotes_wf(quotes_view(bid@)),
        quotes_wf(quotes_view(ask@)),
    ensures
        match mid_quotes(quotes_view(bid@), quotes_view(ask@)) {
            Some(qs) => r matches Some(v) && quotes_view(v@) == qs && quotes_wf(qs),
            None => r is None,
        },
        quotes_nonneg(quotes_view(bid@)) && quotes_nonneg(quotes_view(ask@))
            ==> (r matches Some(v) ==> quotes_nonneg(quotes_view(v@))),
{
    let ghost bv = quotes_view(bid@);
    let ghost av = quotes_view(ask@);
    let n = bid.len();
    let mut out: Vec<(Vec<char>, Dec)> = Vec::new();
    for k in 0..n
        invariant
            n == bid.len(),
            bv == quotes_view(bid@),
            av == quotes_view(ask@),
            quotes_wf(bv),
            quotes_wf(av),
            mid_quotes(bv.take(k as int), av) == Some(quotes_view(out@)),
            quotes_wf(quotes_view(out@)),
            quotes_nonneg(bv) && quotes_nonneg(av) ==> quotes_nonneg(quotes_view(out@)),
    {
        assert(bv.take(k + 1).drop_last() =~= bv.take(k as int));
        assert(bv.take(k + 1).last() == bv[k as int]);
        let v = bid[k].1;
        assert(bv[k as int].1 == v);
        let a = match find_ask(ask, &bid[k].0) {
            Some(a) => a,
            None => v,
        };
        proof {
            if ask_for(av, bv[k as int].0) is Some {
                lemma_ask_for_in(av, bv[k as int].0);
            }
        }
        assert(quotes_nonneg(bv) && quotes_nonneg(av) ==> a.mantissa >= 0);
        let sum = match checked_add(v, a) {
            Some(s) => s,
            None => {
                proof { lemma_mid_quotes_fails(bv, av, k + 1); }
                return None;
            },
        };
        let m = match checked_div(sum, Dec::two()) {
            Some(m) => m,
            None => {
                proof { lemma_mid_quotes_fails(bv, av, k + 1); }
                return None;
            },
        };
        let ghost before = out@;
        out.push((copy_chars(&bid[k].0), m));
        assert(quotes_view(out@) =~= quotes_view(before).push((bv[k as int].0, m)));
    }
    assert(bv.take(n as int) =~= bv);
    Some(out)
}

proof fn lemma_ask_for_in(ask: Seq<(Seq<char>, Dec)>, sym: Seq<char>)
    requires
        ask_for(ask, sym) is Some,
    ensures
        exists|k: int| 0 <= k < ask.len() && ask[k].1 == ask_for(ask, sym)->0,
    decreases ask.len(),
{
    if ask[0].0 == sym {
        assert(ask[0].1 == ask_for(ask, sym)->0);
    } else {
        lemma_ask_for_in(ask.drop_first(), sym);
        let k = choose|k: int| 0 <= k < ask.drop_first().len() && ask.drop_first()[k].1 == ask_for(ask, sym)->0;
        assert(ask[k + 1].1 == ask_for(ask, sym)->0);
    }
}


/// Quotes keyed by symbol strings, as character sequences.
pub open spec fn string_quotes_view(qs: Seq<(String, Dec)>) -> Seq<(Seq<char>, Dec)> {
    qs.map_values(|q: (String, Dec)| (q.0@, q.1))
}

/// Whether every quoted symbol holds a `/` between its base and quote codes.
pub open spec fn symbols_split(qs: Seq<(Seq<char>, Dec)>) -> bool {
    forall|k: int| 0 <= k < qs.len() ==> (#[trigger] qs[k]).0.contains('/')
}

/// The quotes the rates are computed from: the bid quotes, the ask quotes, or the mid quotes.
pub open spec fn calculation_quotes(
    price_type: PriceType,
    bid: Seq<(Seq<char>, Dec)>,
    ask: Seq<(Seq<char>, Dec)>,
) -> Option<Seq<(Seq<char>, Dec)>> {
    match price_type {
        PriceType::Bid => Some(bid),
        PriceType::Ask => Some(ask),
        PriceType::Mid => mid_quotes(bid, ask),
        PriceType::Last => None,
    }
}

/// Whether the quotes of the given price type can be computed from: a bid, ask or mid price,
/// over symbols that hold a `/`.
pub open spec fn calculable(price_type: PriceType, bid: Seq<(Seq<char>, Dec)>, ask: Seq<(Seq<char>, Dec)>) -> bool {
    match price_type {
        PriceType::Bid => symbols_split(bid),
        PriceType::Ask => symbols_split(ask),
        PriceType::Mid => symbols_split(bid),
        PriceType::Last => false,
    }
}

/// Whether the quotes a price type computes rates from are non-negative: the bid quotes,
/// the ask quotes, or both for mid prices.
pub open spec fn selected_nonneg(price_type: PriceType, bid: Seq<(Seq<char>, Dec)>, ask: Seq<(Seq<char>, Dec)>) -> bool {
    match price_type {
        PriceType::Bid => quotes_nonneg(bid),
        PriceType::Ask => quotes_nonneg(ask),
        PriceType::Mid => quotes_nonneg(bid) && quotes_nonneg(ask),
        PriceType::Last => true,
    }
}

/// The rate, or zero where there is none.
pub open spec fn rate_or_zero(r: Option<Dec>) -> Dec {
    match r {
        Some(d) => d,
        None => spec_zero(),
    }
}

/// The exchange rate from `from` to `to`: one between a currency and itself; else the rate
/// that the table built from the calculation quotes and completed with inverse rates holds,
/// or, where it holds none, the rate that the table further completed with rates through
/// common currencies holds, or zero. `None` where a decimal computation fails.
pub open spec fn exchange_rate(
    from: Seq<char>,
    to: Seq<char>,
    price_type: PriceType,
    bid: Seq<(Seq<char>, Dec)>,
    ask: Seq<(Seq<char>, Dec)>,
) -> Option<Dec> {
    if from == to {
        Some(spec_one())
    } else {
        match calculation_quotes(price_type, bid, ask) {
            None => None,
            Some(qs) => {
                let cs = codes_of(qs);
                match with_inverses_spec(table_of(qs, cs)) {
                    None => None,
                    Some(m2) => match rate_in(cs, m2, from, to) {
                        Some(r) => Some(r),
                        None => match with_cross_rates_spec(m2) {
                            None => None,
                            Some(m3) => Some(rate_or_zero(rate_in(cs, m3, from, to))),
                        },
                    },
                }
            },
        }
    }
}

/// The quotes with their symbols as characters.
fn char_quotes(qs: &Vec<(String, Dec)>) -> (r: Vec<(Vec<char>, Dec)>)
    ensures
        quotes_view(r@) == string_quotes_view(qs@),
{
    let n = qs.len();
    let mut r: Vec<(Vec<char>, Dec)> = Vec::new();
    for k in 0..n
        invariant
            n == qs.len(),
            quotes_view(r@) == string_quotes_view(qs@).take(k as int),
    {
        let ghost before = r@;
        let c = chars_of(qs[k].0.as_str());
        let d = qs[k].1;
        assert(c@ == qs@[k as int].0@);
        r.push((c, d));
        assert(quotes_view(r@) =~= quotes_view(before).push((c@, d)));
        assert(string_quotes_view(qs@)[k as int] == (c@, d));
        assert(quotes_view(r@) =~= string_quotes_view(qs@).take(k + 1));
    }
    assert(string_quotes_view(qs@).take(n as int) =~= string_quotes_view(qs@));
    r
}

/// Returns the exchange rate from `from_currency` to `to_currency` for the given price type,
/// computed from the bid and ask quotes of currency pairs (symbols such as `AUD/USD`, whose
/// price is the number of units of the second currency that one unit of the first buys).
///
/// The rate of a currency to itself is one. Otherwise the rates come from the bid quotes,
/// the ask quotes, or the mid quotes (the mean of the bid and the ask of a symbol); they are
/// completed with inverse rates and then with rates through a common currency, and the rate
/// is zero where none can be derived. The quotes are taken in the order given.
///
/// `None` where a decimal sum or division overflows or divides by zero.
pub fn get_exchange_rate(
    from_currency: &Currency,
    to_currency: &Currency,
    price_type: PriceType,
    quotes_bid: &Vec<(String, Dec)>,
    quotes_ask: &Vec<(String, Dec)>,
) -> (r: Option<Dec>)
    requires
        quotes_bid.len() > 0,
        quotes_ask.len() > 0,
        quotes_bid.len() == quotes_ask.len(),
        quotes_wf(string_quotes_view(quotes_bid@)),
        quotes_wf(string_quotes_view(quotes_ask@)),
        from_currency.code@ != to_currency.code@ ==> calculable(
            price_type,
            string_quotes_view(quotes_bid@),
            string_quotes_view(quotes_ask@),
        ),
    ensures
        r == exchange_rate(
            from_currency.code@,
            to_currency.code@,
            price_type,
            string_quotes_view(quotes_bid@),
            string_quotes_view(quotes_ask@),
        ),
        r matches Some(d) ==> d.wf(),
        selected_nonneg(price_type, string_quotes_view(quotes_bid@), string_quotes_view(quotes_ask@))
            ==> (r matches Some(d) ==> d.mantissa >= 0),
{
    if from_currency.code == to_currency.code {
        return Some(Dec::one());
    }
    let bid = char_quotes(quotes_bid);
    let ask = char_quotes(quotes_ask);
    let quotes = match price_type {
        PriceType::Bid => bid,
        PriceType::Ask => ask,
        PriceType::Mid => match mid_quotes_of(&bid, &ask) {
            Some(q) => q,
            None => return None,
        },
        PriceType::Last => return None,
    };
    let table = RateTable::from_quotes(&quotes);
    let table = match table.with_inverses() {
        Some(t) => t,
        None => return None,
    };
    let from = chars_of(from_currency.code.as_str());
    let to = chars_of(to_currency.code.as_str());
    if let Some(rate) = table.rate(&from, &to) {
        return Some(rate);
    }
    let table = match table.with_cross_rates() {
        Some(t) => t,
        None => return None,
    };
    match table.rate(&from, &to) {
        Some(rate) => Some(rate),
        None => Some(Dec::zero()),
    }
}


/// The ask price a mid price uses for symbol `sym` is the price of an ask quote of that very
/// symbol, the first one: it is found exactly when some ask quote has symbol `sym`, and then
/// it is the price of the first ask quote whose symbol is `sym`.
pub proof fn law_ask_lookup_same_symbol(ask: Seq<(Seq<char>, Dec)>, sym: Seq<char>)
    ensures
        ask_for(ask, sym) is Some <==> exists|k: int| 0 <= k < ask.len() && (#[trigger] ask[k]).0 == sym,
        ask_for(ask, sym) matches Some(p) ==> exists|k: int| 0 <= k < ask.len() && (#[trigger] ask[k]).0 == sym
            && ask[k].1 == p && forall|j: int| 0 <= j < k ==> (#[trigger] ask[j]).0 != sym,
    decreases ask.len(),
{
    if ask.len() > 0 {
        law_ask_lookup_same_symbol(ask.drop_first(), sym);
        let t = ask.drop_first();
        if ask[0].0 == sym {
            assert(ask[0].0 == sym);
        } else {
            assert forall|k: int| 0 <= k < t.len() && (#[trigger] t[k]).0 == sym implies
                exists|k2: int| 0 <= k2 < ask.len() && (#[trigger] ask[k2]).0 == sym by {
                assert(ask[k + 1] == t[k]);
            }
            assert forall|k: int| 0 <= k < ask.len() && (#[trigger] ask[k]).0 == sym implies
                exists|k2: int| 0 <= k2 < t.len() && (#[trigger] t[k2]).0 == sym by {
                assert(k != 0);
                assert(t[k - 1] == ask[k]);
            }
            if ask_for(ask, sym) is Some {
                let k = choose|k: int| 0 <= k < t.len() && (#[trigger] t[k]).0 == sym
                    && t[k].1 == ask_for(ask, sym)->0 && forall|j: int| 0 <= j < k ==> (#[trigger] t[j]).0 != sym;
                assert(ask[k + 1] == t[k]);
                assert forall|j: int| 0 <= j < k + 1 implies (#[trigger] ask[j]).0 != sym by {
                    if j > 0 {
                        assert(ask[j] == t[j - 1]);
                    }
                }
            }
        }
    }
}


/// The quotes rates are computed from: the bid quotes for a bid price, the ask quotes for an
/// ask price, and for a mid price one quote per bid quote, in order and of the same symbol.
pub proof fn law_calculation_quotes(bid: Seq<(Seq<char>, Dec)>, ask: Seq<(Seq<char>, Dec)>)
    ensures
        calculation_quotes(PriceType::Bid, bid, ask) == Some(bid),
        calculation_quotes(PriceType::Ask, bid, ask) == Some(ask),
        calculation_quotes(PriceType::Mid, bid, ask) matches Some(qs) ==> qs.len() == bid.len()
            && forall|k: int| 0 <= k < bid.len() ==> (#[trigger] qs[k]).0 == bid[k].0,
    decreases bid.len(),
{
    if bid.len() > 0 {
        law_calculation_quotes(bid.drop_last(), ask);
        if let Some(qs) = mid_quotes(bid, ask) {
            let q0 = mid_quotes(bid.drop_last(), ask)->0;
            assert forall|k: int| 0 <= k < bid.len() implies (#[trigger] qs[k]).0 == bid[k].0 by {
                if k < bid.len() - 1 {
                    assert(qs[k] == q0[k]);
                    assert(bid.drop_last()[k] == bid[k]);
                }
            }
        }
    }
}

/// The mid price of a bid quote `(s, v)`: `(v + a) / 2` where `a` is the price of the first
/// ask quote of symbol `s`, and `(v + v) / 2` where no ask quote has symbol `s`.
pub proof fn law_mid_quote(q: (Seq<char>, Dec), ask: Seq<(Seq<char>, Dec)>)
    ensures
        mid_quote(q, ask) matches Some(r) ==> r.0 == q.0,
        (forall|k: int| 0 <= k < ask.len() ==> (#[trigger] ask[k]).0 != q.0) ==> mid_quote(q, ask) == (match dec_add(q.1, q.1) {
            Some(sum) => match dec_div(sum, spec_two()) {
                Some(v) => Some((q.0, v)),
                None => None,
            },
            None => None,
        }),
        forall|j: int| 0 <= j < ask.len() && (#[trigger] ask[j]).0 == q.0
            && (forall|i: int| 0 <= i < j ==> (#[trigger] ask[i]).0 != q.0) ==> mid_quote(q, ask) == (match dec_add(q.1, ask[j].1) {
            Some(sum) => match dec_div(sum, spec_two()) {
                Some(v) => Some((q.0, v)),
                None => None,
            },
            None => None,
        }),
{
    law_ask_lookup_same_symbol(ask, q.0);
    assert forall|j: int| 0 <= j < ask.len() && (#[trigger] ask[j]).0 == q.0
        && (forall|i: int| 0 <= i < j ==> (#[trigger] ask[i]).0 != q.0) implies ask_for(ask, q.0) == Some(ask[j].1) by {
        let k = choose|k: int| 0 <= k < ask.len() && (#[trigger] ask[k]).0 == q.0
            && ask[k].1 == ask_for(ask, q.0)->0 && forall|i: int| 0 <= i < k ==> (#[trigger] ask[i]).0 != q.0;
        if k < j {
            assert(ask[k].0 != q.0);
        }
        if j < k {
            assert(ask[j].0 != q.0);
        }
    }
}

} // verus!
