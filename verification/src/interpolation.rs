//! Linear interpolation between two sampled points.

use vstd::prelude::*;

use crate::arith::{div_tz, in_i128, lemma_div_tz_bounds};
use crate::fixed_decimal::{FixedDecimal, FixedPrecision};

verus! {

/// The raw value of the interpolation
/// `y1 + ((x - x1) / (x2 - x1)) * (y2 - y1)` carried out in scaled
/// arithmetic: one scaled division for the ratio, one scaled multiplication
/// for the offset.
pub open spec fn lerp_raw(s: int, x: int, x1: int, x2: int, y1: int, y2: int) -> int {
    y1 + div_tz(div_tz((x - x1) * s, x2 - x1) * (y2 - y1), s)
}

/// Every intermediate value of the interpolation fits an `i128` and no
/// division is degenerate.
pub open spec fn lerp_ok(s: int, x: int, x1: int, x2: int, y1: int, y2: int) -> bool {
    &&& x2 != x1
    &&& in_i128(x - x1)
    &&& in_i128(x2 - x1)
    &&& in_i128(y2 - y1)
    &&& in_i128((x - x1) * s)
    &&& !((x - x1) * s == i128::MIN && x2 - x1 == -1)
    &&& in_i128(div_tz((x - x1) * s, x2 - x1) * (y2 - y1))
    &&& in_i128(y1 + div_tz(div_tz((x - x1) * s, x2 - x1) * (y2 - y1), s))
}

/// At the left sample the interpolation returns the left value exactly.
pub proof fn lemma_lerp_at_left_sample(s: int, x1: int, x2: int, y1: int, y2: int)
    requires
        s >= 1,
        x2 != x1,
    ensures
        lerp_raw(s, x1, x1, x2, y1, y2) == y1,
{
    crate::arith::lemma_div_tz_zero(x2 - x1);
    crate::arith::lemma_div_tz_zero(s);
}

pub fn linear_interpolation<T: FixedPrecision>(
    x: FixedDecimal<T>,
    x1: FixedDecimal<T>,
    x2: FixedDecimal<T>,
    y1: FixedDecimal<T>,
    y2: FixedDecimal<T>,
) -> (r: FixedDecimal<T>)
    requires
        FixedDecimal::<T>::precision_ok(),
        lerp_ok(FixedDecimal::<T>::spec_scale(), x@, x1@, x2@, y1@, y2@),
    ensures
        r@ == lerp_raw(FixedDecimal::<T>::spec_scale(), x@, x1@, x2@, y1@, y2@),
{
    proof {
        crate::arith::lemma_pow10_pos(T::PRECISION as nat);
        let s = FixedDecimal::<T>::spec_scale();
        lemma_div_tz_bounds((x@ - x1@) * s, x2@ - x1@);
        lemma_div_tz_bounds(div_tz((x@ - x1@) * s, x2@ - x1@) * (y2@ - y1@), s);
    }
    let dx = x2.sub(x1);
    let dy = y2.sub(y1);
    let t = x.sub(x1).div(dx);
    y1.add(t.mul(dy))
}

} // verus!
