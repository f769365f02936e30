//! Integer-level model of the scaled arithmetic.
//!
//! Every operation on a fixed-point value is, underneath, an operation on a
//! raw `i128`.  The spec functions here give those raw operations an exact
//! mathematical meaning: `div_tz` is Rust's truncating division, `pow10` the
//! decimal scale factor.  The lemmas relate them to the Euclidean `/` and `%`
//! of spec arithmetic and bound their results so that exec code can prove
//! absence of overflow.

use vstd::prelude::*;

verus! {

use vstd::arithmetic::div_mod::lemma_fundamental_div_mod;

/// Holds when `x` fits in an `i128`.
pub open spec fn in_i128(x: int) -> bool {
    i128::MIN <= x <= i128::MAX
}

/// `10^p`, the scale factor of a value with `p` fractional decimal digits.
pub open spec fn pow10(p: nat) -> int
    decreases p,
{
    if p == 0 {
        1
    } else {
        10 * pow10((p - 1) as nat)
    }
}

/// Division truncating toward zero, the meaning of `/` on `i128` in Rust.
pub open spec fn div_tz(a: int, b: int) -> int {
    if a >= 0 {
        a / b
    } else {
        -((-a) / b)
    }
}

pub proof fn lemma_pow10_pos(p: nat)
    ensures
        pow10(p) >= 1,
    decreases p,
{
    if p > 0 {
        lemma_pow10_pos((p - 1) as nat);
    }
}

pub proof fn lemma_pow10_mono(p: nat, q: nat)
    requires
        p <= q,
    ensures
        pow10(p) <= pow10(q),
    decreases q,
{
    if p < q {
        lemma_pow10_mono(p, (q - 1) as nat);
        lemma_pow10_pos((q - 1) as nat);
    }
}

/// The largest scale that still fits in an `i128`.
pub proof fn lemma_pow10_38()
    ensures
        pow10(38) == 100000000000000000000000000000000000000int,
{
    reveal_with_fuel(pow10, 40);
}

/// Truncating division never grows the magnitude of its dividend, so the
/// quotient of an in-range dividend stays in range (except `i128::MIN / -1`,
/// whose true quotient is one past `i128::MAX`).
pub proof fn lemma_div_tz_bounds(a: int, b: int)
    requires
        b != 0,
    ensures
        a >= 0 ==> -a <= div_tz(a, b) <= a,
        a < 0 ==> a <= div_tz(a, b) <= -a,
        a >= 0 && b > 0 ==> 0 <= div_tz(a, b),
        in_i128(a) && !(a == i128::MIN && b == -1) ==> in_i128(div_tz(a, b)),
{
    if a >= 0 {
        lemma_div_tz_nonneg_bounds(a, b);
    } else {
        lemma_div_tz_nonneg_bounds(-a, b);
        if a == i128::MIN && b != -1 {
            // The quotient of `-a` must be strictly above `a`, so its
            // negation stays at or below `i128::MAX`.
            if b > 0 {
                // div_tz(a, b) == -((-a) / b) with (-a) / b in [0, -a]:
                // already in range since -((-a) / b) >= a is all that is
                // needed, and equality with `a` only threatens the other
                // side, which the nonneg bounds exclude.
            } else {
                let q = (-a) / b;
                let r = (-a) % b;
                lemma_fundamental_div_mod(-a, b);
                assert(a < q) by (nonlinear_arith)
                    requires
                        -a == b * q + r,
                        0 <= r < -b,
                        b <= -2,
                        -a >= 2,
                        q <= 0,
                ;
            }
        }
    }
}

/// Rounding toward zero and scaling back never leaves the interval between
/// zero and the dividend.
pub proof fn lemma_div_tz_mul_bounds(a: int, s: int)
    requires
        s > 0,
    ensures
        a >= 0 ==> 0 <= div_tz(a, s) * s <= a,
        a < 0 ==> a <= div_tz(a, s) * s <= 0,
{
    if a >= 0 {
        let q = a / s;
        let r = a % s;
        lemma_fundamental_div_mod(a, s);
        lemma_div_tz_nonneg_bounds(a, s);
        assert(0 <= q * s <= a) by (nonlinear_arith)
            requires
                a == s * q + r,
                0 <= r < s,
                q >= 0,
        ;
    } else {
        let q = (-a) / s;
        let r = (-a) % s;
        lemma_fundamental_div_mod(-a, s);
        lemma_div_tz_nonneg_bounds(-a, s);
        assert(0 <= q * s <= -a) by (nonlinear_arith)
            requires
                -a == s * q + r,
                0 <= r < s,
                q >= 0,
        ;
        assert(div_tz(a, s) * s == -(q * s)) by (nonlinear_arith)
            requires
                div_tz(a, s) == -q,
        ;
    }
}

/// Bounds for the Euclidean quotient of a nonnegative dividend.
proof fn lemma_div_tz_nonneg_bounds(a: int, b: int)
    requires
        a >= 0,
        b != 0,
    ensures
        b > 0 ==> 0 <= a / b <= a,
        b < 0 ==> -a <= a / b <= 0,
{
    let q = a / b;
    let r = a % b;
    lemma_fundamental_div_mod(a, b);
    if b > 0 {
        assert(0 <= q <= a) by (nonlinear_arith)
            requires
                a == b * q + r,
                0 <= r < b,
                b >= 1,
                a >= 0,
        ;
    } else {
        assert(-a <= q <= 0) by (nonlinear_arith)
            requires
                a == b * q + r,
                0 <= r < -b,
                b <= -1,
                a >= 0,
        ;
    }
}

/// Truncating division by a positive divisor is monotone in the dividend.
pub proof fn lemma_div_tz_ordered(a1: int, a2: int, d: int)
    requires
        a1 <= a2,
        d > 0,
    ensures
        div_tz(a1, d) <= div_tz(a2, d),
{
    if a1 >= 0 {
        vstd::arithmetic::div_mod::lemma_div_is_ordered(a1, a2, d);
    } else if a2 >= 0 {
        vstd::arithmetic::div_mod::lemma_div_pos_is_pos(-a1, d);
        vstd::arithmetic::div_mod::lemma_div_pos_is_pos(a2, d);
    } else {
        vstd::arithmetic::div_mod::lemma_div_is_ordered(-a2, -a1, d);
    }
}

/// Exec division on `i128`, tied to the `div_tz` model.
pub fn div_tz_i128(a: i128, b: i128) -> (r: i128)
    requires
        b != 0,
        !(a == i128::MIN && b == -1),
    ensures
        r as int == div_tz(a as int, b as int),
{
    proof {
        lemma_div_tz_bounds(a as int, b as int);
    }
    a / b
}

/// Powers of ten multiply by adding exponents.
pub proof fn lemma_pow10_adds(a: nat, b: nat)
    ensures
        pow10(a + b) == pow10(a) * pow10(b),
    decreases a,
{
    if a == 0 {
        lemma_pow10_pos(b);
        assert(1 * pow10(b) == pow10(b)) by (nonlinear_arith);
    } else {
        lemma_pow10_adds((a - 1) as nat, b);
        assert(pow10(a + b) == 10 * (pow10((a - 1) as nat) * pow10(b)));
        assert(10 * (pow10((a - 1) as nat) * pow10(b)) == (10 * pow10((a - 1) as nat)) * pow10(b))
            by (nonlinear_arith);
    }
}

/// Multiplying a nonnegative number by a larger factor gives a larger product.
pub proof fn lemma_mul_le(a: int, b: int, c: int)
    requires
        a >= 0,
        b <= c,
    ensures
        a * b <= a * c,
{
    assert(a * b <= a * c) by (nonlinear_arith)
        requires
            a >= 0,
            b <= c,
    ;
}

/// A dividend bounded by `c` times the divisor has a quotient bounded by
/// `c` in magnitude.
pub proof fn lemma_div_tz_magnitude(a: int, b: int, c: int)
    requires
        b > 0,
        c >= 0,
        -(c * b) <= a <= c * b,
    ensures
        -c <= div_tz(a, b) <= c,
{
    vstd::arithmetic::div_mod::lemma_div_by_multiple(c, b);
    if a >= 0 {
        vstd::arithmetic::div_mod::lemma_div_is_ordered(a, c * b, b);
        vstd::arithmetic::div_mod::lemma_div_pos_is_pos(a, b);
    } else {
        vstd::arithmetic::div_mod::lemma_div_is_ordered(-a, c * b, b);
        vstd::arithmetic::div_mod::lemma_div_pos_is_pos(-a, b);
    }
}

/// `div_tz` of zero is zero, whatever the divisor.
pub proof fn lemma_div_tz_zero(b: int)
    requires
        b != 0,
    ensures
        div_tz(0, b) == 0,
{
    lemma_div_tz_nonneg_bounds(0, b);
}

/// Dividing an exact multiple truncates nothing.
pub proof fn lemma_div_tz_exact(k: int, b: int)
    requires
        b > 0,
    ensures
        div_tz(k * b, b) == k,
{
    if k >= 0 {
        assert(k * b >= 0) by (nonlinear_arith)
            requires
                k >= 0,
                b > 0,
        ;
        lemma_fundamental_div_mod(k * b, b);
        let q = (k * b) / b;
        let r = (k * b) % b;
        assert(q == k) by (nonlinear_arith)
            requires
                k * b == b * q + r,
                0 <= r < b,
                b > 0,
        ;
    } else {
        assert(k * b < 0) by (nonlinear_arith)
            requires
                k < 0,
                b > 0,
        ;
        assert(-(k * b) == (-k) * b) by (nonlinear_arith);
        lemma_fundamental_div_mod((-k) * b, b);
        let q = ((-k) * b) / b;
        let r = ((-k) * b) % b;
        assert(q == -k) by (nonlinear_arith)
            requires
                (-k) * b == b * q + r,
                0 <= r < b,
                b > 0,
        ;
    }
}

} // verus!
