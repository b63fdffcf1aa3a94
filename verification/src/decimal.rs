//! Decimal numbers as a signed 96-bit mantissa and a power-of-ten scale, with the arithmetic
//! that `rust_decimal` performs on them.

use rust_decimal::Decimal;
use vstd::prelude::*;

verus! {

/// The largest mantissa magnitude a decimal can hold: 2^96 - 1.
pub const MAX_MANTISSA: i128 = 79228162514264337593543950335i128;

/// The largest scale a decimal can hold.
pub const MAX_SCALE: u32 = 28u32;

/// A decimal number `mantissa * 10^(-scale)`.
#[derive(Clone, Copy, Debug, PartialEq, Eq, Structural)]
pub struct Dec {
    pub mantissa: i128,
    pub scale: u32,
}

impl View for Dec {
    type V = (int, int);

    open spec fn view(&self) -> (int, int) {
        (self.mantissa as int, self.scale as int)
    }
}

impl Dec {
    /// Whether the mantissa fits in 96 bits and the scale is at most 28.
    pub open spec fn wf(self) -> bool {
        &&& -MAX_MANTISSA <= self.mantissa <= MAX_MANTISSA
        &&& self.scale <= MAX_SCALE
    }

    /// Whether the value is zero (whatever its scale).
    pub open spec fn is_zero_spec(self) -> bool {
        self.mantissa == 0
    }

    /// The number zero.
    pub fn zero() -> (r: Dec)
        ensures
            r == spec_zero(),
    {
        Dec { mantissa: 0, scale: 0 }
    }

    /// The number one.
    pub fn one() -> (r: Dec)
        ensures
            r == spec_one(),
    {
        Dec { mantissa: 1, scale: 0 }
    }

    /// The number two.
    pub fn two() -> (r: Dec)
        ensures
            r == spec_two(),
    {
        Dec { mantissa: 2, scale: 0 }
    }

    /// Whether the value is zero.
    pub fn is_zero(&self) -> (r: bool)
        ensures
            r == self.is_zero_spec(),
    {
        self.mantissa == 0
    }
}

pub open spec fn spec_zero() -> Dec {
    Dec { mantissa: 0, scale: 0 }
}

pub open spec fn spec_one() -> Dec {
    Dec { mantissa: 1, scale: 0 }
}

pub open spec fn spec_two() -> Dec {
    Dec { mantissa: 2, scale: 0 }
}

/// The decimal whose mantissa and scale are the pair `p`.
pub open spec fn dec_of(p: (int, int)) -> Dec {
    Dec { mantissa: p.0 as i128, scale: p.1 as u32 }
}

/// What `rust_decimal::Decimal::checked_add` returns on the two decimals given as
/// (mantissa, scale) pairs, as a (mantissa, scale) pair.
pub uninterp spec fn decimal_checked_add(a: (int, int), b: (int, int)) -> Option<(int, int)>;

/// What `rust_decimal::Decimal::checked_mul` returns on the two decimals given as
/// (mantissa, scale) pairs, as a (mantissa, scale) pair.
pub uninterp spec fn decimal_checked_mul(a: (int, int), b: (int, int)) -> Option<(int, int)>;

/// What `rust_decimal::Decimal::checked_div` returns on the two decimals given as
/// (mantissa, scale) pairs, as a (mantissa, scale) pair.
pub uninterp spec fn decimal_checked_div(a: (int, int), b: (int, int)) -> Option<(int, int)>;

/// The sum of two decimals, or `None` where `rust_decimal` reports overflow.
pub open spec fn dec_add(a: Dec, b: Dec) -> Option<Dec> {
    match decimal_checked_add(a@, b@) {
        Some(p) => Some(dec_of(p)),
        None => None,
    }
}

/// The product of two decimals, or `None` where `rust_decimal` reports overflow.
pub open spec fn dec_mul(a: Dec, b: Dec) -> Option<Dec> {
    match decimal_checked_mul(a@, b@) {
        Some(p) => Some(dec_of(p)),
        None => None,
    }
}

/// The quotient of two decimals, or `None` where `rust_decimal` reports division by zero
/// or overflow.
pub open spec fn dec_div(a: Dec, b: Dec) -> Option<Dec> {
    match decimal_checked_div(a@, b@) {
        Some(p) => Some(dec_of(p)),
        None => None,
    }
}

/// `10^e`.
pub open spec fn pow10(e: nat) -> int
    decreases e,
{
    if e == 0 {
        1
    } else {
        10 * pow10((e - 1) as nat)
    }
}

/// A magnitude `q` with discarded part `r` out of `d`, rounded half to even.
pub open spec fn round_half_even(q: int, r: int, d: int) -> int {
    if 2 * r > d || (2 * r == d && q % 2 == 1) {
        q + 1
    } else {
        q
    }
}

/// `a` rounded to at most `dp` decimal places, halves to even: the value is kept as it is
/// when its scale is at most `dp`; otherwise the magnitude of the mantissa is divided by
/// `10^(scale - dp)`, rounded half to even, given the sign of the mantissa, and the scale becomes `dp`.
pub open spec fn dec_round_dp(a: Dec, dp: u32) -> Dec {
    if a.scale <= dp {
        a
    } else {
        let d = pow10((a.scale - dp) as nat);
        let m = if a.mantissa < 0 { -a.mantissa } else { a.mantissa as int };
        let q = round_half_even(m / d, m % d, d);
        Dec { mantissa: (if a.mantissa < 0 { -q } else { q }) as i128, scale: dp }
    }
}

/// Adds two decimals with `rust_decimal::Decimal::checked_add`.
/// Trusted: the result is the named `decimal_checked_add` of the arguments and is a
/// well-formed decimal; adding to zero gives the other operand unchanged, and adding zero
/// to a nonzero operand gives that operand unchanged; the sum of non-negative operands is
/// non-negative (the sign of the result is that of the operands when they agree).
#[verifier::external_body]
pub(crate) fn checked_add(a: Dec, b: Dec) -> (r: Option<Dec>)
    requires
        a.wf(),
        b.wf(),
    ensures
        r is None <==> decimal_checked_add(a@, b@) is None,
        r matches Some(d) ==> decimal_checked_add(a@, b@) == Some(d@),
        r == dec_add(a, b),
        r matches Some(d) ==> d.wf(),
        a.mantissa == 0 ==> r == Some(b),
        b.mantissa == 0 && a.mantissa != 0 ==> r == Some(a),
        a.mantissa >= 0 && b.mantissa >= 0 ==> (r matches Some(d) ==> d.mantissa >= 0),
{
    let x = Decimal::from_i128_with_scale(a.mantissa, a.scale);
    let y = Decimal::from_i128_with_scale(b.mantissa, b.scale);
    match x.checked_add(y) {
        Some(d) => Some(Dec { mantissa: d.mantissa(), scale: d.scale() }),
        None => None,
    }
}

/// Multiplies two decimals with `rust_decimal::Decimal::checked_mul`.
/// Trusted: the result is the named `decimal_checked_mul` of the arguments and is a
/// well-formed decimal; a zero factor gives zero; the product of non-negative factors is
/// non-negative (the sign of the result is the exclusive or of the operands' signs).
#[verifier::external_body]
pub(crate) fn checked_mul(a: Dec, b: Dec) -> (r: Option<Dec>)
    requires
        a.wf(),
        b.wf(),
    ensures
        r is None <==> decimal_checked_mul(a@, b@) is None,
        r matches Some(d) ==> decimal_checked_mul(a@, b@) == Some(d@),
        r == dec_mul(a, b),
        r matches Some(d) ==> d.wf(),
        a.mantissa == 0 || b.mantissa == 0 ==> r == Some(spec_zero()),
        a.mantissa >= 0 && b.mantissa >= 0 ==> (r matches Some(d) ==> d.mantissa >= 0),
{
    let x = Decimal::from_i128_with_scale(a.mantissa, a.scale);
    let y = Decimal::from_i128_with_scale(b.mantissa, b.scale);
    match x.checked_mul(y) {
        Some(d) => Some(Dec { mantissa: d.mantissa(), scale: d.scale() }),
        None => None,
    }
}

/// Divides two decimals with `rust_decimal::Decimal::checked_div`.
/// Trusted: the result is the named `decimal_checked_div` of the arguments and is a
/// well-formed decimal; a zero divisor gives `None`, and a zero dividend over a nonzero
/// divisor gives zero; the quotient of non-negative operands is non-negative (the sign of
/// the result is the exclusive or of the operands' signs).
#[verifier::external_body]
pub(crate) fn checked_div(a: Dec, b: Dec) -> (r: Option<Dec>)
    requires
        a.wf(),
        b.wf(),
    ensures
        r is None <==> decimal_checked_div(a@, b@) is None,
        r matches Some(d) ==> decimal_checked_div(a@, b@) == Some(d@),
        r == dec_div(a, b),
        r matches Some(d) ==> d.wf(),
        b.mantissa == 0 ==> r is None,
        a.mantissa == 0 && b.mantissa != 0 ==> r == Some(spec_zero()),
        a.mantissa >= 0 && b.mantissa >= 0 ==> (r matches Some(d) ==> d.mantissa >= 0),
{
    let x = Decimal::from_i128_with_scale(a.mantissa, a.scale);
    let y = Decimal::from_i128_with_scale(b.mantissa, b.scale);
    match x.checked_div(y) {
        Some(d) => Some(Dec { mantissa: d.mantissa(), scale: d.scale() }),
        None => None,
    }
}

proof fn lemma_pow10_ge_10(e: nat)
    requires
        e >= 1,
    ensures
        pow10(e) >= 10,
    decreases e,
{
    if e > 1 {
        lemma_pow10_ge_10((e - 1) as nat);
    } else {
        assert(pow10(0) == 1);
    }
}

/// Rounding a well-formed decimal gives a well-formed decimal.
pub proof fn lemma_round_dp_wf(a: Dec, dp: u32)
    requires
        a.wf(),
    ensures
        dec_round_dp(a, dp).wf(),
{
    if a.scale > dp {
        let d = pow10((a.scale - dp) as nat);
        lemma_pow10_ge_10((a.scale - dp) as nat);
        let m: int = if a.mantissa < 0 { -a.mantissa } else { a.mantissa as int };
        assert(0 <= m <= MAX_MANTISSA);
        assert(0 <= m / d <= m / 10) by (nonlinear_arith)
            requires
                d >= 10,
                m >= 0,
        ;
        assert(m / 10 + 1 <= MAX_MANTISSA);
        let q = round_half_even(m / d, m % d, d);
        assert(0 <= q <= MAX_MANTISSA);
    }
}

proof fn lemma_pow10_pos(e: nat)
    ensures
        pow10(e) >= 1,
    decreases e,
{
    if e > 0 {
        lemma_pow10_pos((e - 1) as nat);
    }
}

proof fn lemma_pow10_mono(a: nat, b: nat)
    requires
        a <= b,
    ensures
        1 <= pow10(a) <= pow10(b),
    decreases b,
{
    lemma_pow10_pos(a);
    if a < b {
        lemma_pow10_mono(a, (b - 1) as nat);
    }
}

proof fn lemma_pow10_28()
    ensures
        pow10(28) == 10000000000000000000000000000int,
{
    reveal_with_fuel(pow10, 29);
}

/// `10^e`, for an exponent of at most 28.
fn pow10_of(e: u32) -> (p: i128)
    requires
        e <= 28,
    ensures
        p == pow10(e as nat),
{
    let mut p: i128 = 1;
    let mut k: u32 = 0;
    while k < e
        invariant
            k <= e <= 28,
            p == pow10(k as nat),
        decreases e - k,
    {
        proof {
            lemma_pow10_mono((k + 1) as nat, 28);
            lemma_pow10_28();
        }
        p = p * 10;
        k = k + 1;
    }
    p
}

/// Rounds a decimal to at most `dp` decimal places, halves to even: the value is kept where
/// its scale is at most `dp`; otherwise the magnitude of the mantissa is divided by
/// `10^(scale - dp)` and rounded half to even, the sign is kept, and the scale becomes `dp`.
pub fn round_dp(a: Dec, dp: u32) -> (r: Dec)
    requires
        a.wf(),
    ensures
        r == dec_round_dp(a, dp),
        r.wf(),
        a.scale <= dp ==> r == a,
        a.scale > dp ==> r.scale == dp && -pow10((a.scale - dp) as nat) <= 2 * (r.mantissa * pow10(
            (a.scale - dp) as nat,
        ) - a.mantissa) <= pow10((a.scale - dp) as nat),
{
    proof {
        lemma_round_dp_wf(a, dp);
        law_round_dp_nearest(a, dp);
    }
    if a.scale <= dp {
        return a;
    }
    let d = pow10_of(a.scale - dp);
    proof { lemma_pow10_mono(1, (a.scale - dp) as nat); lemma_pow10_mono((a.scale - dp) as nat, 28); lemma_pow10_28(); }
    let m: i128 = if a.mantissa < 0 { -a.mantissa } else { a.mantissa };
    let q0 = m / d;
    let r0 = m % d;
    assert(0 <= q0 <= m) by (nonlinear_arith)
        requires
            q0 == m / d,
            m >= 0,
            d >= 1,
    ;
    assert(0 <= r0 < d) by (nonlinear_arith)
        requires
            r0 == m % d,
            d >= 1,
    ;
    let q = if 2 * r0 > d || (2 * r0 == d && q0 % 2 == 1) { q0 + 1 } else { q0 };
    Dec { mantissa: if a.mantissa < 0 { -q } else { q }, scale: dp }
}

/// Rounding keeps the value to within half a unit of the last kept place: a decimal with at
/// most `dp` decimal places is unchanged; otherwise the result has scale `dp` and its
/// mantissa `q` satisfies `|q * 10^(scale - dp) - mantissa| <= 10^(scale - dp) / 2`, a tie
/// going to the even `q`.
pub proof fn law_round_dp_nearest(a: Dec, dp: u32)
    requires
        a.wf(),
    ensures
        a.scale <= dp ==> dec_round_dp(a, dp) == a,
        a.scale > dp ==> ({
            let r = dec_round_dp(a, dp);
            let d = pow10((a.scale - dp) as nat);
            let diff = r.mantissa * d - a.mantissa;
            &&& r.scale == dp
            &&& -d <= 2 * diff <= d
            &&& (2 * diff == d || 2 * diff == -d) ==> r.mantissa % 2 == 0
            &&& (a.mantissa >= 0 <==> r.mantissa >= 0) || r.mantissa == 0
        }),
{
    lemma_round_dp_wf(a, dp);
    if a.scale > dp {
        let d = pow10((a.scale - dp) as nat);
        lemma_pow10_ge_10((a.scale - dp) as nat);
        let m: int = if a.mantissa < 0 { -a.mantissa } else { a.mantissa as int };
        let q0 = m / d;
        let r0 = m % d;
        assert(m == q0 * d + r0 && 0 <= r0 < d && q0 >= 0) by (nonlinear_arith)
            requires
                q0 == m / d,
                r0 == m % d,
                d >= 10,
                m >= 0,
        ;
        let q = round_half_even(q0, r0, d);
        let r = dec_round_dp(a, dp);
        assert(q == 0 || q > 0);
        if q == q0 + 1 {
            assert(q * d - m == d - r0) by (nonlinear_arith)
                requires
                    q == q0 + 1,
                    m == q0 * d + r0,
            ;
        } else {
            assert(q * d - m == -r0) by (nonlinear_arith)
                requires
                    q == q0,
                    m == q0 * d + r0,
            ;
        }
        if a.mantissa < 0 {
            assert(r.mantissa == -q);
            assert(r.mantissa * d - a.mantissa == -(q * d - m)) by (nonlinear_arith)
                requires
                    r.mantissa == -q,
                    a.mantissa == -m,
            ;
        } else {
            assert(r.mantissa == q);
        }
    }
}

} // verus!
