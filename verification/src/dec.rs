//! Fixed-point decimal numbers, computed by `rust_decimal`.
//!
//! A [`Dec`] holds a decimal number as the two plain values that `rust_decimal::Decimal` is made
//! of: a signed mantissa of at most 96 bits and a scale (a power of ten) of at most 28. Every
//! arithmetic operation is carried out by `rust_decimal`; the library only moves the two values in
//! and out.
use vstd::prelude::*;

verus! {

/// The largest mantissa magnitude a decimal can hold: 2^96 - 1.
pub const MAX_MANTISSA: i128 = 79_228_162_514_264_337_593_543_950_335;

/// The largest scale a decimal can hold.
pub const MAX_SCALE: u32 = 28;

/// A decimal number `mantissa / 10^scale`.
#[derive(Debug, Clone, Copy)]
pub struct Dec {
    pub mantissa: i128,
    pub scale: u32,
}

/// 10 to the power `e`.
pub open spec fn pow10(e: nat) -> int
    decreases e,
{
    if e == 0 {
        1
    } else {
        10 * pow10((e - 1) as nat)
    }
}

impl Dec {
    /// The mantissa and scale are within the bounds of `rust_decimal::Decimal`.
    pub open spec fn wf(self) -> bool {
        &&& self.scale <= MAX_SCALE
        &&& -MAX_MANTISSA <= self.mantissa <= MAX_MANTISSA
    }

    /// The decimal with mantissa `mantissa` and scale `scale`.
    pub open spec fn spec_new(mantissa: int, scale: nat) -> Dec {
        Dec { mantissa: mantissa as i128, scale: scale as u32 }
    }

    /// The decimal `num / 10^scale`.
    pub fn new(num: i64, scale: u32) -> (r: Dec)
        requires
            scale <= MAX_SCALE,
        ensures
            r == Dec::spec_new(num as int, scale as nat),
            r.wf(),
    {
        Dec { mantissa: num as i128, scale }
    }

    /// The integer `n` as a decimal with scale 0.
    pub fn from_u64(n: u64) -> (r: Dec)
        ensures
            r == Dec::spec_new(n as int, 0),
            r.wf(),
    {
        Dec { mantissa: n as i128, scale: 0 }
    }

    /// Zero.
    pub fn zero() -> (r: Dec)
        ensures
            r == Dec::spec_new(0, 0),
            r.wf(),
    {
        Dec { mantissa: 0, scale: 0 }
    }

    /// One.
    pub fn one() -> (r: Dec)
        ensures
            r == Dec::spec_new(1, 0),
            r.wf(),
    {
        Dec { mantissa: 1, scale: 0 }
    }

    /// Whether the decimal is an integer held with scale 0, and lies in `0..=bound`.
    pub open spec fn is_small_int(self, bound: int) -> bool {
        self.scale == 0 && 0 <= self.mantissa <= bound
    }
}

/// `a < b`, comparing the numbers that the decimals stand for.
pub open spec fn spec_lt(a: Dec, b: Dec) -> bool {
    a.mantissa * pow10(b.scale as nat) < b.mantissa * pow10(a.scale as nat)
}

/// What `rust_decimal` computes for `a + b`: the mantissa and scale of the sum, or `None` when
/// the sum overflows.
pub uninterp spec fn decimal_checked_add(a_mantissa: i128, a_scale: u32, b_mantissa: i128, b_scale: u32) -> Option<(i128, u32)>;

/// What `rust_decimal` computes for `a - b`, or `None` on overflow.
pub uninterp spec fn decimal_checked_sub(a_mantissa: i128, a_scale: u32, b_mantissa: i128, b_scale: u32) -> Option<(i128, u32)>;

/// What `rust_decimal` computes for `a * b`, or `None` on overflow.
pub uninterp spec fn decimal_checked_mul(a_mantissa: i128, a_scale: u32, b_mantissa: i128, b_scale: u32) -> Option<(i128, u32)>;

/// What `rust_decimal` computes for `a / b`, or `None` when `b` is zero or on overflow.
pub uninterp spec fn decimal_checked_div(a_mantissa: i128, a_scale: u32, b_mantissa: i128, b_scale: u32) -> Option<(i128, u32)>;

/// A decimal converted to `u64`, as `rust_decimal` does it: the integer part of a non-negative
/// number when it fits in 64 bits; `None` for a negative number or one too large.
pub open spec fn decimal_to_u64(mantissa: i128, scale: u32) -> Option<u64> {
    if mantissa < 0 {
        None
    } else if (mantissa as int) / pow10(scale as nat) <= u64::MAX {
        Some(((mantissa as int) / pow10(scale as nat)) as u64)
    } else {
        None
    }
}

/// The magnitude `m` divided by `d` and rounded to the nearest integer, a tie going to the even one.
pub open spec fn div_nearest_even(m: int, d: int) -> int {
    let q = m / d;
    let rest = m % d;
    if 2 * rest > d || (2 * rest == d && q % 2 == 1) {
        q + 1
    } else {
        q
    }
}

/// A decimal rounded to `dp` decimal places, as `rust_decimal` does it (banker's rounding): a
/// decimal with at most `dp` places is unchanged; otherwise the magnitude of the mantissa is
/// divided by `10^(scale - dp)` and rounded to the nearest integer, a tie going to the even one,
/// the sign is kept and the scale becomes `dp`.
pub open spec fn decimal_round_dp(mantissa: i128, scale: u32, dp: u32) -> (i128, u32) {
    if scale <= dp {
        (mantissa, scale)
    } else {
        let d = pow10((scale - dp) as nat);
        if mantissa < 0 {
            ((-div_nearest_even(-mantissa, d)) as i128, dp)
        } else {
            (div_nearest_even(mantissa as int, d) as i128, dp)
        }
    }
}

/// The text that `rust_decimal` writes for a decimal.
pub uninterp spec fn decimal_display(mantissa: i128, scale: u32) -> Seq<char>;

/// The decimal that a pair of mantissa and scale stands for.
pub open spec fn from_parts(p: Option<(i128, u32)>) -> Option<Dec> {
    match p {
        Some((m, s)) => Some(Dec { mantissa: m, scale: s }),
        None => None,
    }
}

pub open spec fn spec_add(a: Dec, b: Dec) -> Option<Dec> {
    from_parts(decimal_checked_add(a.mantissa, a.scale, b.mantissa, b.scale))
}

pub open spec fn spec_sub(a: Dec, b: Dec) -> Option<Dec> {
    from_parts(decimal_checked_sub(a.mantissa, a.scale, b.mantissa, b.scale))
}

pub open spec fn spec_mul(a: Dec, b: Dec) -> Option<Dec> {
    from_parts(decimal_checked_mul(a.mantissa, a.scale, b.mantissa, b.scale))
}

pub open spec fn spec_div(a: Dec, b: Dec) -> Option<Dec> {
    from_parts(decimal_checked_div(a.mantissa, a.scale, b.mantissa, b.scale))
}

/// The result of an operation, when there is one, is a well-formed decimal.
pub open spec fn wf_result(r: Option<Dec>) -> bool {
    r is Some ==> r->0.wf()
}

/// Calls `Decimal::checked_add`. Besides naming the result, the contract claims what the source
/// of `rust_decimal` shows: a result is a valid decimal, and the sum of two decimals of the same
/// scale is exact, with that scale, whenever its mantissa fits in 96 bits.
#[verifier::external_body]
pub fn checked_add(a: Dec, b: Dec) -> (r: Option<Dec>)
    requires
        a.wf(),
        b.wf(),
    ensures
        r == from_parts(decimal_checked_add(a.mantissa, a.scale, b.mantissa, b.scale)),
        wf_result(r),
        a.is_small_int(MAX_MANTISSA as int) && b.is_small_int(MAX_MANTISSA as int)
            && a.mantissa + b.mantissa <= MAX_MANTISSA ==> r == Some(
            Dec::spec_new(a.mantissa + b.mantissa, 0),
        ),
        a.scale == b.scale && -MAX_MANTISSA <= a.mantissa + b.mantissa <= MAX_MANTISSA ==> r == Some(
            Dec::spec_new(a.mantissa + b.mantissa, a.scale as nat),
        ),
{
    let x = rust_decimal::Decimal::from_i128_with_scale(a.mantissa, a.scale);
    let y = rust_decimal::Decimal::from_i128_with_scale(b.mantissa, b.scale);
    x.checked_add(y).map(|z| Dec { mantissa: z.mantissa(), scale: z.scale() })
}

/// Calls `Decimal::checked_sub`. Besides naming the result, the contract claims that a result is a
/// valid decimal, that the difference of two non-negative integers held with scale 0 is exact,
/// with scale 0, and that the difference of two decimals of the same scale is exact, with that
/// scale, whenever its mantissa fits in 96 bits.
#[verifier::external_body]
pub fn checked_sub(a: Dec, b: Dec) -> (r: Option<Dec>)
    requires
        a.wf(),
        b.wf(),
    ensures
        r == from_parts(decimal_checked_sub(a.mantissa, a.scale, b.mantissa, b.scale)),
        wf_result(r),
        a.is_small_int(MAX_MANTISSA as int) && b.is_small_int(MAX_MANTISSA as int) ==> r == Some(
            Dec::spec_new(a.mantissa - b.mantissa, 0),
        ),
        a.scale == b.scale && -MAX_MANTISSA <= a.mantissa - b.mantissa <= MAX_MANTISSA ==> r == Some(
            Dec::spec_new(a.mantissa - b.mantissa, a.scale as nat),
        ),
{
    let x = rust_decimal::Decimal::from_i128_with_scale(a.mantissa, a.scale);
    let y = rust_decimal::Decimal::from_i128_with_scale(b.mantissa, b.scale);
    x.checked_sub(y).map(|z| Dec { mantissa: z.mantissa(), scale: z.scale() })
}

/// Calls `Decimal::checked_mul`. Besides naming the result, the contract claims what the source
/// of `rust_decimal` shows: a result is a valid decimal; a product with a zero factor is zero with
/// scale 0; and a product of non-zero factors whose mantissa fits in 96 bits, with the scales
/// adding up to at most `MAX_SCALE`, is exact, with the sum of the scales.
#[verifier::external_body]
pub fn checked_mul(a: Dec, b: Dec) -> (r: Option<Dec>)
    requires
        a.wf(),
        b.wf(),
    ensures
        r == from_parts(decimal_checked_mul(a.mantissa, a.scale, b.mantissa, b.scale)),
        wf_result(r),
        a.mantissa == 0 || b.mantissa == 0 ==> r == Some(Dec::spec_new(0, 0)),
        a.mantissa != 0 && b.mantissa != 0 && a.scale + b.scale <= MAX_SCALE && -MAX_MANTISSA <= a.mantissa * b.mantissa
            <= MAX_MANTISSA ==> r == Some(
            Dec::spec_new(a.mantissa * b.mantissa, (a.scale + b.scale) as nat),
        ),
{
    let x = rust_decimal::Decimal::from_i128_with_scale(a.mantissa, a.scale);
    let y = rust_decimal::Decimal::from_i128_with_scale(b.mantissa, b.scale);
    x.checked_mul(y).map(|z| Dec { mantissa: z.mantissa(), scale: z.scale() })
}

/// Calls `Decimal::checked_div`. Besides naming the result, the contract claims what its
/// documentation states: division by zero gives `None`; and that a result is a valid decimal.
#[verifier::external_body]
pub fn checked_div(a: Dec, b: Dec) -> (r: Option<Dec>)
    requires
        a.wf(),
        b.wf(),
    ensures
        r == from_parts(decimal_checked_div(a.mantissa, a.scale, b.mantissa, b.scale)),
        wf_result(r),
        b.mantissa == 0 ==> r is None,
{
    let x = rust_decimal::Decimal::from_i128_with_scale(a.mantissa, a.scale);
    let y = rust_decimal::Decimal::from_i128_with_scale(b.mantissa, b.scale);
    x.checked_div(y).map(|z| Dec { mantissa: z.mantissa(), scale: z.scale() })
}

/// Calls `<` on two `Decimal`s, which compares the numbers they stand for.
#[verifier::external_body]
pub fn lt(a: Dec, b: Dec) -> (r: bool)
    requires
        a.wf(),
        b.wf(),
    ensures
        r == spec_lt(a, b),
{
    let x = rust_decimal::Decimal::from_i128_with_scale(a.mantissa, a.scale);
    let y = rust_decimal::Decimal::from_i128_with_scale(b.mantissa, b.scale);
    x < y
}

proof fn lemma_pow10_monotone(a: nat, b: nat)
    requires
        a <= b,
    ensures
        1 <= pow10(a) <= pow10(b),
    decreases b,
{
    if a < b {
        lemma_pow10_monotone(a, (b - 1) as nat);
    } else if a > 0 {
        lemma_pow10_monotone((a - 1) as nat, (a - 1) as nat);
    }
}

/// 10 to the power `e`, for a scale `e`.
fn pow10_of(e: u32) -> (r: i128)
    requires
        e <= MAX_SCALE,
    ensures
        r == pow10(e as nat),
        r >= 1,
{
    assert(pow10(28) == 10_000_000_000_000_000_000_000_000_000) by {
        reveal_with_fuel(pow10, 29);
    }
    let mut r: i128 = 1;
    let mut i: u32 = 0;
    while i < e
        invariant
            i <= e <= MAX_SCALE,
            r == pow10(i as nat),
            pow10(28) == 10_000_000_000_000_000_000_000_000_000,
        decreases e - i,
    {
        proof {
            lemma_pow10_monotone((i + 1) as nat, 28);
        }
        r = r * 10;
        i = i + 1;
    }
    proof {
        lemma_pow10_monotone(0, e as nat);
    }
    r
}

/// The decimal converted to `u64`, as `rust_decimal` does it (see [`decimal_to_u64`]).
pub fn to_u64(a: Dec) -> (r: Option<u64>)
    requires
        a.wf(),
    ensures
        r == decimal_to_u64(a.mantissa, a.scale),
        a.mantissa < 0 ==> r is None,
        a.mantissa >= 0 ==> r == (if (a.mantissa as int) / pow10(a.scale as nat) <= u64::MAX {
            Some(((a.mantissa as int) / pow10(a.scale as nat)) as u64)
        } else {
            None::<u64>
        }),
{
    if a.mantissa < 0 {
        return None;
    }
    let p = pow10_of(a.scale);
    let q = a.mantissa / p;
    if q <= u64::MAX as i128 {
        Some(q as u64)
    } else {
        None
    }
}

/// Calls `to_string` on a `Decimal`; the text is named, not stated.
#[verifier::external_body]
pub fn to_text(a: Dec) -> (r: String)
    requires
        a.wf(),
    ensures
        r@ == decimal_display(a.mantissa, a.scale),
{
    rust_decimal::Decimal::from_i128_with_scale(a.mantissa, a.scale).to_string()
}

/// Calls `Decimal::round_dp`, which rounds to `dp` decimal places with banker's rounding, as
/// [`decimal_round_dp`] states; the result is claimed to be a valid decimal.
#[verifier::external_body]
pub fn round_dp(a: Dec, dp: u32) -> (r: Dec)
    requires
        a.wf(),
    ensures
        (r.mantissa, r.scale) == decimal_round_dp(a.mantissa, a.scale, dp),
        r.wf(),
{
    let z = rust_decimal::Decimal::from_i128_with_scale(a.mantissa, a.scale).round_dp(dp);
    Dec { mantissa: z.mantissa(), scale: z.scale() }
}

/// Whether `a > b`.
pub fn gt(a: Dec, b: Dec) -> (r: bool)
    requires
        a.wf(),
        b.wf(),
    ensures
        r == spec_lt(b, a),
{
    lt(b, a)
}

} // verus!
