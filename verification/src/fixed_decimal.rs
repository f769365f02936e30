//! The scaled-integer decimal type.
//!
//! A `FixedDecimal<T>` stores a raw `i128` that stands for the value
//! `raw / 10^PRECISION`, where the number of fractional digits comes from the
//! marker type `T`.  All contracts speak of the raw integer, reached through
//! the view `@`, together with the scale `spec_scale()`.

use vstd::prelude::*;

use crate::arith::{div_tz, in_i128, lemma_div_tz_bounds, lemma_div_tz_mul_bounds, lemma_pow10_38,
    lemma_pow10_mono, lemma_pow10_pos, pow10};

verus! {

use crate::arith::div_tz_i128;
use crate::error::FixedFastError;
use vstd::arithmetic::power2::pow2;

/// Number of fractional decimal digits, fixed per marker type at compile
/// time.  Values of different precisions are distinct types and never mix.
pub trait FixedPrecision: Copy + Eq + Sized {
    const PRECISION: u32;
}

/// A signed decimal with `T::PRECISION` fractional digits, stored as the
/// value scaled by `10^PRECISION` in an `i128`.
#[derive(Copy, Hash, Eq, Ord, Debug)]
pub struct FixedDecimal<T: FixedPrecision> {
    raw: i128,
    marker: core::marker::PhantomData<T>,
}

impl<T: FixedPrecision> Clone for FixedDecimal<T> {
    fn clone(&self) -> (r: Self)
        ensures
            r == *self,
    {
        *self
    }
}

impl<T: FixedPrecision> PartialEq for FixedDecimal<T> {
    fn eq(&self, other: &Self) -> (r: bool) {
        self.raw == other.raw
    }
}

impl<T: FixedPrecision> vstd::std_specs::cmp::PartialEqSpecImpl for FixedDecimal<T> {
    open spec fn obeys_eq_spec() -> bool {
        true
    }

    open spec fn eq_spec(&self, other: &Self) -> bool {
        self@ == other@
    }
}

impl<T: FixedPrecision> PartialOrd for FixedDecimal<T> {
    fn partial_cmp(&self, other: &Self) -> (r: Option<core::cmp::Ordering>) {
        if self.raw < other.raw {
            Some(core::cmp::Ordering::Less)
        } else if self.raw == other.raw {
            Some(core::cmp::Ordering::Equal)
        } else {
            Some(core::cmp::Ordering::Greater)
        }
    }
}

impl<T: FixedPrecision> vstd::std_specs::cmp::PartialOrdSpecImpl for FixedDecimal<T> {
    open spec fn obeys_partial_cmp_spec() -> bool {
        true
    }

    open spec fn partial_cmp_spec(&self, other: &Self) -> Option<core::cmp::Ordering> {
        if self@ < other@ {
            Some(core::cmp::Ordering::Less)
        } else if self@ == other@ {
            Some(core::cmp::Ordering::Equal)
        } else {
            Some(core::cmp::Ordering::Greater)
        }
    }
}

impl<T: FixedPrecision> View for FixedDecimal<T> {
    type V = int;

    closed spec fn view(&self) -> int {
        self.raw as int
    }
}

/// The view of any fixed-point value is the stored `i128`, so it always
/// lies in the `i128` range.
pub broadcast proof fn lemma_view_in_range<T: FixedPrecision>(x: FixedDecimal<T>)
    ensures
        in_i128(#[trigger] x@),
{
}

/// The raw value of `10^p` for small `p`, usable in exec code in O(1).
pub(crate) fn pow10_i128(p: u32) -> (r: i128)
    requires
        p <= 38,
    ensures
        r as int == pow10(p as nat),
{
    proof {
        reveal_with_fuel(pow10, 40);
    }
    match p {
        0 => 1,
        1 => 10,
        2 => 100,
        3 => 1000,
        4 => 10000,
        5 => 100000,
        6 => 1000000,
        7 => 10000000,
        8 => 100000000,
        9 => 1000000000,
        10 => 10000000000,
        11 => 100000000000,
        12 => 1000000000000,
        13 => 10000000000000,
        14 => 100000000000000,
        15 => 1000000000000000,
        16 => 10000000000000000,
        17 => 100000000000000000,
        18 => 1000000000000000000,
        19 => 10000000000000000000,
        20 => 100000000000000000000,
        21 => 1000000000000000000000,
        22 => 10000000000000000000000,
        23 => 100000000000000000000000,
        24 => 1000000000000000000000000,
        25 => 10000000000000000000000000,
        26 => 100000000000000000000000000,
        27 => 1000000000000000000000000000,
        28 => 10000000000000000000000000000,
        29 => 100000000000000000000000000000,
        30 => 1000000000000000000000000000000,
        31 => 10000000000000000000000000000000,
        32 => 100000000000000000000000000000000,
        33 => 1000000000000000000000000000000000,
        34 => 10000000000000000000000000000000000,
        35 => 100000000000000000000000000000000000,
        36 => 1000000000000000000000000000000000000,
        37 => 10000000000000000000000000000000000000,
        _ => 100000000000000000000000000000000000000,
    }
}

/// The constants below hold the leading digits of `ln 2`, `e` and `pi`
/// scaled by `10^30`; `scale_raw` rescales them to the working precision.
pub const LN2_SCALED_1E30: i128 = 693147180559945309417232121458;

pub const E_SCALED_1E30: i128 = 2718281828459045235360287471352;

pub const PI_SCALED_1E30: i128 = 3141592653589793238462643383279;

pub const CONST_DIGITS: u32 = 30;

/// Rescaling of a raw constant from one digit count to another: multiply by
/// a power of ten to add digits, divide (truncating) to drop them.
pub open spec fn spec_scale_raw(raw: int, scale_index: int) -> int {
    if scale_index > 0 {
        raw * pow10(scale_index as nat)
    } else if scale_index < 0 {
        div_tz(raw, pow10((-scale_index) as nat))
    } else {
        raw
    }
}

pub(crate) fn scale_raw(raw: i128, scale_index: i32) -> (r: i128)
    requires
        -38 <= scale_index <= 38,
        scale_index > 0 ==> in_i128(raw * pow10(scale_index as nat)),
    ensures
        r as int == spec_scale_raw(raw as int, scale_index as int),
{
    if scale_index > 0 {
        raw * pow10_i128(scale_index as u32)
    } else if scale_index < 0 {
        proof {
            lemma_pow10_pos((-scale_index) as nat);
            lemma_div_tz_bounds(raw as int, pow10((-scale_index) as nat));
        }
        div_tz_i128(raw, pow10_i128((-scale_index) as u32))
    } else {
        raw
    }
}

impl<T: FixedPrecision> FixedDecimal<T> {
    /// The scale factor `10^PRECISION` of this precision.
    pub open spec fn spec_scale() -> int {
        pow10(T::PRECISION as nat)
    }

    /// Precisions whose scale factor fits an `i128`.
    pub open spec fn precision_ok() -> bool {
        T::PRECISION <= 38
    }

    /// The scale factor as a runtime value.
    pub fn scale() -> (r: i128)
        requires
            Self::precision_ok(),
        ensures
            r as int == Self::spec_scale(),
            r >= 1,
    {
        proof {
            lemma_pow10_pos(T::PRECISION as nat);
            lemma_pow10_mono(T::PRECISION as nat, 38);
            lemma_pow10_38();
        }
        pow10_i128(T::PRECISION)
    }

    pub fn zero() -> (r: Self)
        ensures
            r@ == 0,
    {
        FixedDecimal { raw: 0, marker: core::marker::PhantomData }
    }

    pub fn one() -> (r: Self)
        requires
            Self::precision_ok(),
        ensures
            r@ == Self::spec_scale(),
    {
        FixedDecimal { raw: Self::scale(), marker: core::marker::PhantomData }
    }

    pub fn from_raw(x: i128) -> (r: Self)
        ensures
            r@ == x as int,
    {
        FixedDecimal { raw: x, marker: core::marker::PhantomData }
    }

    /// Shows that rescaling a positive constant to a precision at most
    /// `CONST_DIGITS + si_max` digits stays within `i128`.
    proof fn lemma_const_rescale_fits(raw: int, si_max: nat)
        requires
            0 < raw,
            T::PRECISION <= CONST_DIGITS + si_max,
            raw * pow10(si_max) <= i128::MAX,
        ensures
            T::PRECISION > CONST_DIGITS ==> in_i128(raw * pow10(
                (T::PRECISION - CONST_DIGITS) as nat,
            )),
    {
        if T::PRECISION > CONST_DIGITS {
            let si = (T::PRECISION - CONST_DIGITS) as nat;
            lemma_pow10_pos(si);
            crate::arith::lemma_mul_le(raw, 0, pow10(si));
            lemma_pow10_mono(si, si_max);
            crate::arith::lemma_mul_le(raw, pow10(si), pow10(si_max));
        }
    }

    /// The raw value of `ln 2` at this precision.
    pub open spec fn ln2_raw() -> int {
        spec_scale_raw(LN2_SCALED_1E30 as int, T::PRECISION - CONST_DIGITS)
    }

    /// At any precision of at least one digit, the stored `ln 2` is
    /// positive.
    pub proof fn lemma_ln2_raw_pos()
        requires
            1 <= T::PRECISION <= 38,
        ensures
            Self::ln2_raw() > 0,
    {
        let si = T::PRECISION - CONST_DIGITS;
        if si > 0 {
            lemma_pow10_pos(si as nat);
            crate::arith::lemma_mul_le(LN2_SCALED_1E30 as int, 1, pow10(si as nat));
            assert(LN2_SCALED_1E30 as int * 1 == LN2_SCALED_1E30 as int) by (nonlinear_arith);
        } else if si < 0 {
            let m = (-si) as nat;
            lemma_pow10_pos(m);
            lemma_pow10_mono(m, 29);
            assert(pow10(29) == 100000000000000000000000000000) by {
                reveal_with_fuel(pow10, 31);
            };
            assert((LN2_SCALED_1E30 as int) / pow10(29) == 6) by {
                vstd::arithmetic::div_mod::lemma_fundamental_div_mod_converse(
                    LN2_SCALED_1E30 as int,
                    pow10(29),
                    6,
                    LN2_SCALED_1E30 as int - 6 * pow10(29),
                );
            };
            vstd::arithmetic::div_mod::lemma_div_is_ordered_by_denominator(
                LN2_SCALED_1E30 as int,
                pow10(m),
                pow10(29),
            );
        }
    }

    /// The natural logarithm of two at this precision, truncated from a
    /// 30-digit literal.
    pub fn ln2() -> (r: Self)
        requires
            Self::precision_ok(),
        ensures
            r@ == Self::ln2_raw(),
    {
        proof {
            assert(pow10(8) == 100000000) by {
                reveal_with_fuel(pow10, 10);
            };
            Self::lemma_const_rescale_fits(LN2_SCALED_1E30 as int, 8);
        }
        Self::from_raw(scale_raw(LN2_SCALED_1E30, T::PRECISION as i32 - CONST_DIGITS as i32))
    }

    /// Euler's number at this precision, truncated from a 30-digit literal.
    /// At 38 digits the scaled literal would no longer fit an `i128`, so the
    /// precision stops one digit short of the scale's own limit.
    pub fn e() -> (r: Self)
        requires
            T::PRECISION <= 37,
        ensures
            r@ == spec_scale_raw(E_SCALED_1E30 as int, T::PRECISION - CONST_DIGITS),
    {
        proof {
            assert(pow10(7) == 10000000) by {
                reveal_with_fuel(pow10, 10);
            };
            Self::lemma_const_rescale_fits(E_SCALED_1E30 as int, 7);
        }
        Self::from_raw(scale_raw(E_SCALED_1E30, T::PRECISION as i32 - CONST_DIGITS as i32))
    }

    /// The raw value of `pi` at this precision.
    pub open spec fn pi_raw() -> int {
        spec_scale_raw(PI_SCALED_1E30 as int, T::PRECISION - CONST_DIGITS)
    }

    /// The circle constant at this precision, truncated from a 30-digit
    /// literal.  Like `e`, limited to 37 digits by the `i128` range.
    pub fn pi() -> (r: Self)
        requires
            T::PRECISION <= 37,
        ensures
            r@ == Self::pi_raw(),
    {
        proof {
            assert(pow10(7) == 10000000) by {
                reveal_with_fuel(pow10, 10);
            };
            Self::lemma_const_rescale_fits(PI_SCALED_1E30 as int, 7);
        }
        Self::from_raw(scale_raw(PI_SCALED_1E30, T::PRECISION as i32 - CONST_DIGITS as i32))
    }

    /// The value `2^k` at this precision: the scale multiplied or divided
    /// (truncating) by a power of two.  Used by the exponential's range
    /// reduction, for which a power of two must be exact.
    pub open spec fn two_pow_k_raw(k: int) -> int {
        if k >= 0 {
            Self::spec_scale() * (pow2(k as nat) as int)
        } else {
            div_tz(Self::spec_scale(), pow2((-k) as nat) as int)
        }
    }

    pub fn two_pow_k(k: i32) -> (r: Self)
        requires
            Self::precision_ok(),
            k >= 0 ==> in_i128(Self::spec_scale() * (pow2(k as nat) as int)),
            k < 0 ==> k >= -127,
        ensures
            r@ == Self::two_pow_k_raw(k as int),
    {
        let s = Self::scale();
        let ghost ss = Self::spec_scale();
        if k >= 0 {
            let mut acc: i128 = s;
            let mut i: i32 = 0;
            proof {
                vstd::arithmetic::power2::lemma2_to64();
                assert(ss * (pow2(0nat) as int) == ss) by (nonlinear_arith)
                    requires
                        pow2(0nat) == 1,
                ;
            }
            while i < k
                invariant
                    0 <= i <= k,
                    ss == Self::spec_scale(),
                    ss >= 1,
                    acc as int == ss * (pow2(i as nat) as int),
                    in_i128(ss * (pow2(k as nat) as int)),
                decreases k - i,
            {
                proof {
                    vstd::arithmetic::power2::lemma_pow2_unfold((i + 1) as nat);
                    assert(ss * (pow2((i + 1) as nat) as int) == 2 * (ss * (pow2(
                        i as nat,
                    ) as int))) by (nonlinear_arith)
                        requires
                            pow2((i + 1) as nat) == 2 * pow2(i as nat),
                    ;
                    if i + 1 < k {
                        vstd::arithmetic::power2::lemma_pow2_strictly_increases(
                            (i + 1) as nat,
                            k as nat,
                        );
                    }
                    crate::arith::lemma_mul_le(ss, pow2((i + 1) as nat) as int, pow2(
                        k as nat,
                    ) as int);
                    vstd::arithmetic::power2::lemma_pow2_pos((i + 1) as nat);
                    crate::arith::lemma_mul_le(ss, 0, pow2((i + 1) as nat) as int);
                }
                acc = acc * 2;
                i = i + 1;
            }
            Self::from_raw(acc)
        } else {
            let m = -k;
            let mut acc: i128 = s;
            let mut i: i32 = 0;
            proof {
                vstd::arithmetic::power2::lemma2_to64();
                assert(div_tz(ss, 1) == ss) by {
                    vstd::arithmetic::div_mod::lemma_fundamental_div_mod(ss, 1);
                };
            }
            while i < m
                invariant
                    0 <= i <= m,
                    ss == Self::spec_scale(),
                    ss >= 1,
                    acc as int == div_tz(ss, pow2(i as nat) as int),
                    acc >= 0,
                decreases m - i,
            {
                proof {
                    let p = pow2(i as nat) as int;
                    vstd::arithmetic::power2::lemma_pow2_pos(i as nat);
                    vstd::arithmetic::power2::lemma_pow2_unfold((i + 1) as nat);
                    vstd::arithmetic::div_mod::lemma_div_denominator(ss, p, 2);
                    lemma_div_tz_bounds(acc as int, 2);
                }
                acc = acc / 2;
                i = i + 1;
            }
            Self::from_raw(acc)
        }
    }

    pub fn to_raw(&self) -> (r: i128)
        ensures
            r as int == self@,
    {
        self.raw
    }

    /// The smallest representable value above zero, `10^-PRECISION`.
    pub fn min_positive() -> (r: Self)
        ensures
            r@ == 1,
    {
        Self::from_raw(1)
    }

    pub fn from_i128(x: i128) -> (r: Self)
        requires
            Self::precision_ok(),
            in_i128(x * Self::spec_scale()),
        ensures
            r@ == x * Self::spec_scale(),
    {
        Self::from_raw(x * Self::scale())
    }

    /// The integer part, truncated toward zero.
    pub fn to_i128(&self) -> (r: i128)
        requires
            Self::precision_ok(),
        ensures
            r as int == div_tz(self@, Self::spec_scale()),
    {
        proof {
            lemma_pow10_pos(T::PRECISION as nat);
        }
        div_tz_i128(self.raw, Self::scale())
    }

    /// The integer part as a fixed-point value: truncation toward zero.
    pub fn floor(self) -> (r: Self)
        requires
            Self::precision_ok(),
        ensures
            r@ == div_tz(self@, Self::spec_scale()) * Self::spec_scale(),
    {
        proof {
            lemma_pow10_pos(T::PRECISION as nat);
            lemma_div_tz_mul_bounds(self@, Self::spec_scale());
        }
        Self::from_raw(self.to_i128() * Self::scale())
    }

    /// The integer part, truncated toward zero, as an `i128`.
    pub fn floor_i128(self) -> (r: i128)
        requires
            Self::precision_ok(),
        ensures
            r as int == div_tz(self@, Self::spec_scale()),
    {
        self.to_i128()
    }

    /// Sign of the value: `1`, `-1` or `0`.
    pub fn signum(&self) -> (r: i128)
        ensures
            self@ > 0 ==> r == 1,
            self@ < 0 ==> r == -1,
            self@ == 0 ==> r == 0,
    {
        if self.raw > 0 {
            1
        } else if self.raw < 0 {
            -1
        } else {
            0
        }
    }

    pub fn neg(&self) -> (r: Self)
        requires
            self@ != i128::MIN,
        ensures
            r@ == -self@,
    {
        Self::from_raw(-self.raw)
    }

    /// The magnitude of the value.
    pub fn abs(&self) -> (r: Self)
        requires
            self@ != i128::MIN,
        ensures
            r@ == if self@ >= 0 { self@ } else { -self@ },
    {
        if self.raw < 0 {
            Self::from_raw(-self.raw)
        } else {
            Self::from_raw(self.raw)
        }
    }

    pub fn add(&self, right: Self) -> (r: Self)
        requires
            in_i128(self@ + right@),
        ensures
            r@ == self@ + right@,
    {
        Self::from_raw(self.raw + right.raw)
    }

    pub fn add_i128(&self, right: i128) -> (r: Self)
        requires
            Self::precision_ok(),
            in_i128(right * Self::spec_scale()),
            in_i128(self@ + right * Self::spec_scale()),
        ensures
            r@ == self@ + right * Self::spec_scale(),
    {
        Self::from_raw(self.raw + right * Self::scale())
    }

    pub fn sub(&self, right: Self) -> (r: Self)
        requires
            in_i128(self@ - right@),
        ensures
            r@ == self@ - right@,
    {
        Self::from_raw(self.raw - right.raw)
    }

    pub fn sub_i128(&self, right: i128) -> (r: Self)
        requires
            Self::precision_ok(),
            in_i128(right * Self::spec_scale()),
            in_i128(self@ - right * Self::spec_scale()),
        ensures
            r@ == self@ - right * Self::spec_scale(),
    {
        Self::from_raw(self.raw - right * Self::scale())
    }

    /// What `mul` computes on the raw values.
    pub open spec fn mul_raw(a: int, b: int) -> int {
        div_tz(a * b, Self::spec_scale())
    }

    /// Scaled multiplication: the raw product is divided by the scale,
    /// truncating toward zero.
    pub fn mul(&self, right: Self) -> (r: Self)
        requires
            Self::precision_ok(),
            in_i128(self@ * right@),
        ensures
            r@ == Self::mul_raw(self@, right@),
    {
        proof {
            lemma_pow10_pos(T::PRECISION as nat);
            lemma_div_tz_bounds(self@ * right@, Self::spec_scale());
        }
        Self::from_raw(div_tz_i128(self.raw * right.raw, Self::scale()))
    }

    pub fn mul_i128(&self, right: i128) -> (r: Self)
        requires
            in_i128(self@ * right),
        ensures
            r@ == self@ * right,
    {
        Self::from_raw(self.raw * right)
    }

    /// What `div` computes on the raw values.
    pub open spec fn div_raw(a: int, b: int) -> int {
        div_tz(a * Self::spec_scale(), b)
    }

    /// Scaled division: the raw dividend is multiplied by the scale before
    /// the truncating integer division.
    pub fn div(&self, right: Self) -> (r: Self)
        requires
            Self::precision_ok(),
            right@ != 0,
            in_i128(self@ * Self::spec_scale()),
            !(self@ * Self::spec_scale() == i128::MIN && right@ == -1),
        ensures
            r@ == Self::div_raw(self@, right@),
    {
        proof {
            lemma_pow10_pos(T::PRECISION as nat);
            lemma_div_tz_bounds(self@ * Self::spec_scale(), right@);
        }
        Self::from_raw(div_tz_i128(self.raw * Self::scale(), right.raw))
    }

    pub fn div_i128(&self, right: i128) -> (r: Self)
        requires
            right != 0,
            !(self@ == i128::MIN && right == -1),
        ensures
            r@ == div_tz(self@, right as int),
    {
        Self::from_raw(div_tz_i128(self.raw, right))
    }

    pub open spec fn squared_raw(x: int) -> int {
        Self::mul_raw(x, x)
    }

    pub fn squared(&self) -> (r: Self)
        requires
            Self::precision_ok(),
            in_i128(self@ * self@),
        ensures
            r@ == Self::squared_raw(self@),
    {
        proof {
            lemma_pow10_pos(T::PRECISION as nat);
            lemma_div_tz_bounds(self@ * self@, Self::spec_scale());
        }
        Self::from_raw(div_tz_i128(self.raw * self.raw, Self::scale()))
    }

    pub open spec fn cubed_raw(x: int) -> int {
        div_tz(Self::squared_raw(x) * x, Self::spec_scale())
    }

    pub fn cubed(&self) -> (r: Self)
        requires
            Self::precision_ok(),
            in_i128(self@ * self@),
            in_i128(Self::squared_raw(self@) * self@),
        ensures
            r@ == Self::cubed_raw(self@),
    {
        proof {
            lemma_pow10_pos(T::PRECISION as nat);
            lemma_div_tz_bounds(Self::squared_raw(self@) * self@, Self::spec_scale());
        }
        let sq = self.squared();
        Self::from_raw(div_tz_i128(sq.raw * self.raw, Self::scale()))
    }

    pub open spec fn tesseracted_raw(x: int) -> int {
        div_tz(Self::cubed_raw(x) * x, Self::spec_scale())
    }

    pub fn tesseracted(&self) -> (r: Self)
        requires
            Self::precision_ok(),
            in_i128(self@ * self@),
            in_i128(Self::squared_raw(self@) * self@),
            in_i128(Self::cubed_raw(self@) * self@),
        ensures
            r@ == Self::tesseracted_raw(self@),
    {
        proof {
            lemma_pow10_pos(T::PRECISION as nat);
            lemma_div_tz_bounds(Self::cubed_raw(self@) * self@, Self::spec_scale());
        }
        let cu = self.cubed();
        Self::from_raw(div_tz_i128(cu.raw * self.raw, Self::scale()))
    }

    /// The `n`-th fixed-point power of a raw value: the scale (that is, one)
    /// multiplied `n` times by the base, truncating after each step.
    pub open spec fn pow_fd_raw(base: int, n: nat) -> int
        decreases n,
    {
        if n == 0 {
            Self::spec_scale()
        } else {
            div_tz(Self::pow_fd_raw(base, (n - 1) as nat) * base, Self::spec_scale())
        }
    }

    /// Every intermediate product of the power recurrence fits an `i128`.
    pub open spec fn pow_fd_ok(base: int, n: nat) -> bool {
        forall|j: nat| j < n ==> in_i128(#[trigger] Self::pow_fd_raw(base, j) * base)
    }

    /// Repeated scaled multiplication; a non-positive exponent gives one.
    pub fn pow_i128(&self, power: i128) -> (r: Self)
        requires
            Self::precision_ok(),
            power >= 0 ==> Self::pow_fd_ok(self@, power as nat),
        ensures
            r@ == Self::pow_fd_raw(self@, if power >= 0 { power as nat } else { 0 }),
    {
        let s = Self::scale();
        let mut result = Self::one();
        let mut i: i128 = 0;
        while i < power
            invariant
                0 <= i,
                power >= 0 ==> i <= power,
                power < 0 ==> i == 0,
                s as int == Self::spec_scale(),
                s >= 1,
                Self::precision_ok(),
                power >= 0 ==> Self::pow_fd_ok(self@, power as nat),
                result@ == Self::pow_fd_raw(self@, i as nat),
            decreases power - i,
        {
            proof {
                assert(in_i128(Self::pow_fd_raw(self@, i as nat) * self@));
                lemma_div_tz_bounds(Self::pow_fd_raw(self@, i as nat) * self@, Self::spec_scale());
            }
            result = Self::from_raw(div_tz_i128(result.raw * self.raw, s));
            i = i + 1;
        }
        result
    }

    /// The raw values of a sequence of fixed-point coefficients.
    pub open spec fn raws(cs: Seq<FixedDecimal<T>>) -> Seq<int> {
        cs.map_values(|c: FixedDecimal<T>| c@)
    }

    /// The running power of `x` used by `polynomial`: `x` itself at step 0,
    /// then one scaled multiplication by `x` per step.
    pub open spec fn poly_x_raw(x: int, j: nat) -> int
        decreases j,
    {
        if j == 0 {
            x
        } else {
            div_tz(Self::poly_x_raw(x, (j - 1) as nat) * x, Self::spec_scale())
        }
    }

    /// The accumulated polynomial value after the coefficient at index `j`.
    pub open spec fn poly_acc_raw(x: int, cs: Seq<int>, j: nat) -> int
        decreases j,
    {
        if j == 0 {
            cs[0]
        } else {
            Self::poly_acc_raw(x, cs, (j - 1) as nat) + div_tz(
                cs[j as int] * Self::poly_x_raw(x, (j - 1) as nat),
                Self::spec_scale(),
            )
        }
    }

    /// Every intermediate value of the polynomial evaluation fits an `i128`.
    pub open spec fn poly_ok(x: int, cs: Seq<int>, n: nat) -> bool {
        &&& forall|j: nat|
            1 <= j <= n ==> in_i128(
                #[trigger] Self::poly_acc_raw(x, cs, j),
            )
        &&& forall|j: nat|
            1 <= j <= n ==> in_i128(cs[j as int] * #[trigger] Self::poly_x_raw(x, (j - 1) as nat))
        &&& forall|j: nat|
            1 <= j <= n ==> in_i128(#[trigger] Self::poly_x_raw(x, (j - 1) as nat) * x)
    }

    /// Evaluates `c_0 + c_1 x + c_2 x^2 + ...` by accumulating one scaled
    /// product per coefficient, exactly in the order the powers are built.
    pub fn polynomial(&self, coefficients: &[Self]) -> (r: Self)
        requires
            Self::precision_ok(),
            coefficients@.len() >= 1,
            Self::poly_ok(self@, Self::raws(coefficients@), (coefficients@.len() - 1) as nat),
        ensures
            r@ == Self::poly_acc_raw(
                self@,
                Self::raws(coefficients@),
                (coefficients@.len() - 1) as nat,
            ),
    {
        let ghost cs = Self::raws(coefficients@);
        let ghost n = (coefficients@.len() - 1) as nat;
        let s = Self::scale();
        let len = coefficients.len();
        let mut result = coefficients[0];
        let mut x_n = *self;
        let mut j: usize = 1;
        while j < len
            invariant
                1 <= j <= len,
                len == coefficients@.len(),
                cs == Self::raws(coefficients@),
                n == (len - 1) as nat,
                s as int == Self::spec_scale(),
                s >= 1,
                Self::precision_ok(),
                Self::poly_ok(self@, cs, n),
                result@ == Self::poly_acc_raw(self@, cs, (j - 1) as nat),
                x_n@ == Self::poly_x_raw(self@, (j - 1) as nat),
            decreases len - j,
        {
            proof {
                assert(in_i128(Self::poly_acc_raw(self@, cs, j as nat)));
                assert(in_i128(cs[j as int] * Self::poly_x_raw(self@, (j - 1) as nat)));
                assert(in_i128(Self::poly_x_raw(self@, (j - 1) as nat) * self@));
                lemma_div_tz_bounds(
                    cs[j as int] * Self::poly_x_raw(self@, (j - 1) as nat),
                    Self::spec_scale(),
                );
                lemma_div_tz_bounds(
                    Self::poly_x_raw(self@, (j - 1) as nat) * self@,
                    Self::spec_scale(),
                );
                assert(cs[j as int] == coefficients@[j as int]@);
            }
            let c = coefficients[j];
            result = Self::from_raw(result.raw + div_tz_i128(c.raw * x_n.raw, s));
            x_n = Self::from_raw(div_tz_i128(x_n.raw * self.raw, s));
            j = j + 1;
        }
        result
    }

    /// Checked square root: delegates to the fallible Newton–Raphson
    /// routine with the given compile-time iteration depth.
    pub fn checked_sqrt<const APPROX_DEPTH: u32>(self) -> (r: Result<Self, FixedFastError>)
        requires
            Self::precision_ok(),
            self@ > 0 ==> crate::sqrt::sqrt_defined(Self::spec_scale(), self@, APPROX_DEPTH as nat),
        ensures
            self@ < 0 ==> (r matches Err(e) && e matches FixedFastError::DomainError(m) && m@
                == "sqrt is undefined for negative numbers"@),
            self@ >= 0 ==> (r matches Ok(v) && v@ == crate::sqrt::sqrt_raw(
                Self::spec_scale(),
                self@,
                APPROX_DEPTH as nat,
            )),
    {
        crate::sqrt::sqrt_newton_raphson_try::<T, APPROX_DEPTH>(self)
    }

    /// Checked addition: the exact sum, or `Overflow` when it leaves the
    /// `i128` range.
    pub fn checked_add(self, rhs: Self) -> (r: Result<Self, FixedFastError>)
        ensures
            in_i128(self@ + rhs@) ==> (r matches Ok(v) && v@ == self@ + rhs@),
            !in_i128(self@ + rhs@) ==> r matches Err(FixedFastError::Overflow),
    {
        match self.raw.checked_add(rhs.raw) {
            Some(sum) => Ok(Self::from_raw(sum)),
            None => Err(FixedFastError::Overflow),
        }
    }

    /// Checked subtraction: the exact difference, or `Overflow`.
    pub fn checked_sub(self, rhs: Self) -> (r: Result<Self, FixedFastError>)
        ensures
            in_i128(self@ - rhs@) ==> (r matches Ok(v) && v@ == self@ - rhs@),
            !in_i128(self@ - rhs@) ==> r matches Err(FixedFastError::Overflow),
    {
        match self.raw.checked_sub(rhs.raw) {
            Some(diff) => Ok(Self::from_raw(diff)),
            None => Err(FixedFastError::Overflow),
        }
    }

    /// Checked scaled multiplication: `Overflow` when the raw product
    /// already leaves the `i128` range, the truncated product otherwise.
    pub fn checked_mul(self, rhs: Self) -> (r: Result<Self, FixedFastError>)
        requires
            Self::precision_ok(),
        ensures
            in_i128(self@ * rhs@) ==> (r matches Ok(v) && v@ == Self::mul_raw(self@, rhs@)),
            !in_i128(self@ * rhs@) ==> r matches Err(FixedFastError::Overflow),
    {
        proof {
            lemma_pow10_pos(T::PRECISION as nat);
            if in_i128(self@ * rhs@) {
                lemma_div_tz_bounds(self@ * rhs@, Self::spec_scale());
            }
        }
        match self.raw.checked_mul(rhs.raw) {
            Some(prod_raw) => Ok(Self::from_raw(div_tz_i128(prod_raw, Self::scale()))),
            None => Err(FixedFastError::Overflow),
        }
    }

    /// Checked scaled division: `DivideByZero` for a zero divisor, the
    /// truncated quotient otherwise.
    pub fn checked_div(self, rhs: Self) -> (r: Result<Self, FixedFastError>)
        requires
            Self::precision_ok(),
            rhs@ != 0 ==> in_i128(self@ * Self::spec_scale()),
            rhs@ != 0 ==> !(self@ * Self::spec_scale() == i128::MIN && rhs@ == -1),
        ensures
            rhs@ == 0 ==> r matches Err(FixedFastError::DivideByZero),
            rhs@ != 0 ==> (r matches Ok(v) && v@ == Self::div_raw(self@, rhs@)),
    {
        if rhs.raw == 0 {
            Err(FixedFastError::DivideByZero)
        } else {
            Ok(self.div(rhs))
        }
    }
}

/// Byte `i` of the two's-complement little-endian encoding of a raw value.
pub open spec fn le_byte_of(v: i128, i: int) -> u8 {
    ((v as u128) >> ((8 * i) as u128)) as u8
}

/// Relies on `i128::to_le_bytes`: the memory representation of the integer
/// as a byte array in little-endian order, two's complement for the sign.
#[verifier::external_body]
fn i128_to_le_bytes(x: i128) -> (r: [u8; 16])
    ensures
        forall|i: int| 0 <= i < 16 ==> #[trigger] r@[i] == le_byte_of(x, i),
{
    x.to_le_bytes()
}

/// Relies on `i128::from_le_bytes`: reconstructs the integer whose
/// little-endian two's-complement representation is the given byte array.
#[verifier::external_body]
fn i128_from_le_bytes(bytes: [u8; 16]) -> (r: i128)
    ensures
        forall|i: int| 0 <= i < 16 ==> #[trigger] bytes@[i] == le_byte_of(r, i),
{
    i128::from_le_bytes(bytes)
}

impl<T: FixedPrecision> FixedDecimal<T> {
    /// The little-endian bytes of the raw scaled integer.
    pub fn to_le_bytes(self) -> (r: [u8; 16])
        ensures
            forall|i: int| 0 <= i < 16 ==> #[trigger] r@[i] == le_byte_of(self@ as i128, i),
    {
        i128_to_le_bytes(self.raw)
    }

    /// The value whose raw scaled integer has the given little-endian
    /// bytes.
    pub fn from_le_bytes(bytes: [u8; 16]) -> (r: Self)
        ensures
            forall|i: int|
                0 <= i < 16 ==> #[trigger] bytes@[i] == le_byte_of(r@ as i128, i),
    {
        Self::from_raw(i128_from_le_bytes(bytes))
    }

}

} // verus!
