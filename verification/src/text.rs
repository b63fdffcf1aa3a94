//! Character-level helpers for currency codes and market symbols.

use vstd::prelude::*;

verus! {

broadcast use vstd::string::axiom_spec_iter;

/// The characters of `s`, in order.
pub fn chars_of(s: &str) -> (v: Vec<char>)
    ensures
        v@ == s@,
{
    let mut v: Vec<char> = Vec::new();
    for c in it: s.chars()
        invariant
            it.seq() == s@,
            v@ == s@.take(it.index() as int),
    {
        v.push(c);
    }
    v
}


/// Whether two character sequences are equal.
pub fn chars_eq(a: &Vec<char>, b: &Vec<char>) -> (r: bool)
    ensures
        r == (a@ == b@),
{
    if a.len() != b.len() {
        return false;
    }
    let n = a.len();
    for i in 0..n
        invariant
            n == a.len(),
            n == b.len(),
            forall|k: int| 0 <= k < i ==> a@[k] == b@[k],
    {
        if a[i] != b[i] {
            return false;
        }
    }
    assert(a@ =~= b@);
    true
}

/// The characters of `s` before the first occurrence of `c` (all of `s` if there is none):
/// the first piece that splitting `s` at `c` gives.
pub open spec fn before_char(s: Seq<char>, c: char) -> Seq<char>
    decreases s.len(),
{
    if s.len() == 0 || s[0] == c {
        Seq::empty()
    } else {
        seq![s[0]] + before_char(s.drop_first(), c)
    }
}

/// The characters of `s` after the first occurrence of `c` (empty if there is none).
pub open spec fn after_char(s: Seq<char>, c: char) -> Seq<char>
    decreases s.len(),
{
    if s.len() == 0 {
        Seq::empty()
    } else if s[0] == c {
        s.drop_first()
    } else {
        after_char(s.drop_first(), c)
    }
}

/// The base currency code of a symbol such as `AUD/USD`: the first piece when the symbol
/// is split at `/`.
pub open spec fn symbol_base(s: Seq<char>) -> Seq<char> {
    before_char(s, '/')
}

/// The quote currency code of a symbol such as `AUD/USD`: the second piece when the symbol
/// is split at `/`.
pub open spec fn symbol_quote(s: Seq<char>) -> Seq<char> {
    before_char(after_char(s, '/'), '/')
}

proof fn lemma_scan(s: Seq<char>, c: char, i: int, j: int)
    requires
        0 <= i <= j <= s.len(),
        forall|k: int| i <= k < j ==> s[k] != c,
    ensures
        before_char(s.skip(i), c) == s.subrange(i, j) + before_char(s.skip(j), c),
        after_char(s.skip(i), c) == after_char(s.skip(j), c),
    decreases j - i,
{
    if i < j {
        lemma_scan(s, c, i + 1, j);
        assert(s.skip(i).drop_first() =~= s.skip(i + 1));
        assert(s.subrange(i, j) =~= seq![s[i]] + s.subrange(i + 1, j));
    } else {
        assert(s.subrange(i, j) =~= Seq::<char>::empty());
    }
}

/// The index of the first `c` in `s` at or after `start`, or `s.len()` if there is none.
fn scan_to(s: &Vec<char>, c: char, start: usize) -> (j: usize)
    requires
        start <= s.len(),
    ensures
        start <= j <= s.len(),
        forall|k: int| start <= k < j ==> s@[k] != c,
        j < s.len() ==> s@[j as int] == c,
{
    let mut j = start;
    while j < s.len()
        invariant
            start <= j <= s.len(),
            forall|k: int| start <= k < j ==> s@[k] != c,
        decreases s.len() - j,
    {
        if s[j] == c {
            return j;
        }
        j = j + 1;
    }
    j
}

/// The characters `s[from..to]`.
fn copy_range(s: &Vec<char>, from: usize, to: usize) -> (r: Vec<char>)
    requires
        from <= to <= s.len(),
    ensures
        r@ == s@.subrange(from as int, to as int),
{
    let mut r: Vec<char> = Vec::new();
    let mut k = from;
    while k < to
        invariant
            from <= k <= to <= s.len(),
            r@ == s@.subrange(from as int, k as int),
        decreases to - k,
    {
        r.push(s[k]);
        k = k + 1;
        assert(r@ =~= s@.subrange(from as int, k as int));
    }
    r
}

/// A copy of the characters of `s`.
pub fn copy_chars(s: &Vec<char>) -> (r: Vec<char>)
    ensures
        r@ == s@,
{
    let r = copy_range(s, 0, s.len());
    assert(s@.subrange(0, s@.len() as int) =~= s@);
    r
}

/// Splits a symbol such as `AUD/USD` at `/` into its base and quote currency codes.
pub fn split_symbol(s: &Vec<char>) -> (r: (Vec<char>, Vec<char>))
    ensures
        r.0@ == symbol_base(s@),
        r.1@ == symbol_quote(s@),
{
    let n = s.len();
    let i = scan_to(s, '/', 0);
    proof {
        lemma_scan(s@, '/', 0, i as int);
        assert(s@.skip(0) =~= s@);
    }
    let base = copy_range(s, 0, i);
    if i == n {
        proof {
            assert(s@.skip(n as int) =~= Seq::<char>::empty());
            assert(s@.subrange(0, n as int) =~= s@);
        }
        return (base, Vec::new());
    }
    proof {
        assert(s@.skip(i as int).drop_first() =~= s@.skip(i + 1));
        assert(s@.subrange(0, i as int) + Seq::<char>::empty() =~= s@.subrange(0, i as int));
    }
    let j = scan_to(s, '/', i + 1);
    proof {
        lemma_scan(s@, '/', i + 1, j as int);
        if j == n {
            assert(s@.skip(n as int) =~= Seq::<char>::empty());
        }
        assert(s@.subrange(i + 1, j as int) + Seq::<char>::empty() =~= s@.subrange(i + 1, j as int));
    }
    let quote = copy_range(s, i + 1, j);
    (base, quote)
}


/// Splitting at `/`: a symbol `x/y`, where `x` holds no `/`, has base code `x`; its quote
/// code is `y` where `y` holds no `/`, and the part of `y` before its first `/` otherwise.
pub proof fn law_split_symbol(x: Seq<char>, y: Seq<char>)
    requires
        !x.contains('/'),
    ensures
        symbol_base(x + seq!['/'] + y) == x,
        symbol_quote(x + seq!['/'] + y) == before_char(y, '/'),
        !y.contains('/') ==> symbol_quote(x + seq!['/'] + y) == y,
{
    let s = x + seq!['/'] + y;
    let i = x.len() as int;
    assert forall|k: int| 0 <= k < i implies s[k] != '/' by {
        assert(s[k] == x[k]);
        if s[k] == '/' {
            assert(x.contains('/'));
        }
    }
    lemma_scan(s, '/', 0, i);
    assert(s.skip(0) =~= s);
    assert(s.subrange(0, i) =~= x);
    assert(s.skip(i)[0] == '/');
    assert(s.skip(i).drop_first() =~= y);
    assert(before_char(s.skip(i), '/') == Seq::<char>::empty());
    if !y.contains('/') {
        assert forall|k: int| 0 <= k < y.len() implies y[k] != '/' by {
            if y[k] == '/' {
                assert(y.contains('/'));
            }
        }
        lemma_scan(y, '/', 0, y.len() as int);
        assert(y.skip(0) =~= y);
        assert(y.subrange(0, y.len() as int) =~= y);
        assert(y.skip(y.len() as int) =~= Seq::<char>::empty());
        assert(y + Seq::<char>::empty() =~= y);
    }
}

} // verus!
