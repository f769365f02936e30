//! Range-reduced Taylor-series exponential.
//!
//! The input is decomposed as `x = k * ln2 + r`, the series for `e^r` runs
//! for a fixed, compile-time number of terms, and the result is rescaled by
//! the exact power of two `2^k`.

use vstd::prelude::*;

use crate::arith::{div_tz, in_i128, lemma_div_tz_bounds};
use crate::error::FixedFastError;
use crate::fixed_decimal::{FixedDecimal, FixedPrecision};
use crate::function::{Function, TryFunction};
use crate::interpolation::{lerp_ok, lerp_raw, linear_interpolation};
use crate::lookup_table::{spec_table_size, table_params_ok, LookupTable};

verus! {

use vstd::arithmetic::power2::pow2;

broadcast use crate::fixed_decimal::lemma_view_in_range;

/// The integer multiple of `ln 2` removed from the input:
/// `(x / ln2)` truncated to an integer.
pub open spec fn exp_k(s: int, ln2: int, x: int) -> int {
    div_tz(div_tz(x * s, ln2), s)
}

/// The remaining series input `r = x - ln2 * k`, with the product computed
/// as one scaled multiplication.
pub open spec fn exp_r(s: int, ln2: int, x: int) -> int {
    x - div_tz(ln2 * (exp_k(s, ln2, x) * s), s)
}

/// The `i`-th Taylor term at scale `s`: one for `i == 0`, then one scaled
/// multiplication by `r` and one integer division by `i` per step.
pub open spec fn exp_term(s: int, r: int, i: nat) -> int
    decreases i,
{
    if i == 0 {
        s
    } else {
        div_tz(div_tz(exp_term(s, r, (i - 1) as nat) * r, s), i as int)
    }
}

/// The partial Taylor sum through term `i`.
pub open spec fn exp_sum(s: int, r: int, i: nat) -> int
    decreases i,
{
    if i == 0 {
        s
    } else {
        exp_sum(s, r, (i - 1) as nat) + exp_term(s, r, i)
    }
}

/// The exact power-of-two rescaling factor `2^k` at scale `s`.
pub open spec fn exp_gain(s: int, k: int) -> int {
    if k >= 0 {
        s * (pow2(k as nat) as int)
    } else {
        div_tz(s, pow2((-k) as nat) as int)
    }
}

/// What the range-reduced exponential returns on the raw value `x`.
pub open spec fn exp_raw(s: int, ln2: int, x: int, order: nat) -> int {
    div_tz(exp_sum(s, exp_r(s, ln2, x), order) * exp_gain(s, exp_k(s, ln2, x)), s)
}

/// Every intermediate step of the exponential is defined: the reduction
/// arithmetic fits, the shift count is small enough for the power-of-two
/// rescaling, and all series arithmetic stays within `i128`.
pub open spec fn exp_defined(s: int, ln2: int, x: int, order: nat) -> bool {
    let k = exp_k(s, ln2, x);
    let r = exp_r(s, ln2, x);
    &&& ln2 > 0
    &&& in_i128(x * s)
    &&& in_i128(k * s)
    &&& in_i128(ln2 * (k * s))
    &&& in_i128(r)
    &&& -127 <= k <= 127
    &&& (k >= 0 ==> in_i128(s * (pow2(k as nat) as int)))
    &&& (forall|i: nat|
        1 <= i <= order ==> in_i128(#[trigger] exp_term(s, r, (i - 1) as nat) * r) && in_i128(
            exp_sum(s, r, (i - 1) as nat) + exp_term(s, r, i),
        ))
    &&& in_i128(exp_sum(s, r, order) * exp_gain(s, k))
}

/// Range-reduced Taylor exponential: decompose `x = k * ln2 + r`, sum the
/// series for `e^r` to the fixed order, rescale by `2^k`.
pub fn range_reduce_taylor_exp<T: FixedPrecision, const TAYLOR_ORDER: u32>(
    x: FixedDecimal<T>,
) -> (res: FixedDecimal<T>)
    requires
        FixedDecimal::<T>::precision_ok(),
        exp_defined(
            FixedDecimal::<T>::spec_scale(),
            FixedDecimal::<T>::ln2_raw(),
            x@,
            TAYLOR_ORDER as nat,
        ),
    ensures
        res@ == exp_raw(
            FixedDecimal::<T>::spec_scale(),
            FixedDecimal::<T>::ln2_raw(),
            x@,
            TAYLOR_ORDER as nat,
        ),
{
    let ghost s = FixedDecimal::<T>::spec_scale();
    let ghost l2 = FixedDecimal::<T>::ln2_raw();
    let ln2 = FixedDecimal::<T>::ln2();
    proof {
        crate::arith::lemma_pow10_pos(T::PRECISION as nat);
        crate::arith::lemma_pow10_mono(T::PRECISION as nat, 38);
        crate::arith::lemma_pow10_38();
        lemma_div_tz_bounds(x@ * s, l2);
        lemma_div_tz_bounds(div_tz(x@ * s, l2), s);
    }
    let k = (x.div(ln2)).floor_i128();
    proof {
        lemma_div_tz_bounds(l2 * (exp_k(s, l2, x@) * s), s);
    }
    let r = x.sub(ln2.mul(FixedDecimal::<T>::from_i128(k)));
    let one = FixedDecimal::<T>::from_i128(1);
    let mut term = one;
    let mut result = term;
    let mut i: u64 = 1;
    while i <= TAYLOR_ORDER as u64
        invariant
            1 <= i <= TAYLOR_ORDER as u64 + 1,
            FixedDecimal::<T>::precision_ok(),
            s == FixedDecimal::<T>::spec_scale(),
            l2 == FixedDecimal::<T>::ln2_raw(),
            r@ == exp_r(s, l2, x@),
            exp_defined(s, l2, x@, TAYLOR_ORDER as nat),
            term@ == exp_term(s, r@, (i - 1) as nat),
            result@ == exp_sum(s, r@, (i - 1) as nat),
        decreases TAYLOR_ORDER as u64 + 1 - i,
    {
        proof {
            crate::arith::lemma_pow10_pos(T::PRECISION as nat);
            assert(in_i128(exp_term(s, r@, (i - 1) as nat) * r@) && in_i128(
                exp_sum(s, r@, (i - 1) as nat) + exp_term(s, r@, i as nat),
            ));
            lemma_div_tz_bounds(exp_term(s, r@, (i - 1) as nat) * r@, s);
            lemma_div_tz_bounds(div_tz(exp_term(s, r@, (i - 1) as nat) * r@, s), i as int);
        }
        term = term.mul(r).div_i128(i as i128);
        result = result.add(term);
        i = i + 1;
    }
    let range_gain = FixedDecimal::<T>::two_pow_k(k as i32);
    proof {
        assert(range_gain@ == exp_gain(s, exp_k(s, l2, x@)));
        lemma_div_tz_bounds(exp_sum(s, r@, TAYLOR_ORDER as nat) * range_gain@, s);
    }
    result.mul(range_gain)
}

/// The direct exponential as a capability value.
pub struct ExpRangeReduceTaylor<T: FixedPrecision, const TAYLOR_ORDER: u32> {
    _precision: core::marker::PhantomData<T>,
}

impl<T: FixedPrecision, const TAYLOR_ORDER: u32> ExpRangeReduceTaylor<T, TAYLOR_ORDER> {
    pub fn new() -> (r: Self) {
        Self { _precision: core::marker::PhantomData }
    }
}

impl<T: FixedPrecision, const TAYLOR_ORDER: u32> Function<T> for ExpRangeReduceTaylor<
    T,
    TAYLOR_ORDER,
> {
    open spec fn domain(&self, x: FixedDecimal<T>) -> bool {
        &&& FixedDecimal::<T>::precision_ok()
        &&& exp_defined(
            FixedDecimal::<T>::spec_scale(),
            FixedDecimal::<T>::ln2_raw(),
            x@,
            TAYLOR_ORDER as nat,
        )
    }

    open spec fn value(&self, x: FixedDecimal<T>) -> int {
        exp_raw(
            FixedDecimal::<T>::spec_scale(),
            FixedDecimal::<T>::ln2_raw(),
            x@,
            TAYLOR_ORDER as nat,
        )
    }

    fn evaluate(&self, x: FixedDecimal<T>) -> (r: FixedDecimal<T>) {
        range_reduce_taylor_exp::<T, TAYLOR_ORDER>(x)
    }
}

impl<T: FixedPrecision, const TAYLOR_ORDER: u32> TryFunction<T> for ExpRangeReduceTaylor<
    T,
    TAYLOR_ORDER,
> {
    open spec fn try_domain(&self, x: FixedDecimal<T>) -> bool {
        self.domain(x)
    }

    open spec fn try_ok(&self, x: FixedDecimal<T>) -> bool {
        true
    }

    open spec fn try_value(&self, x: FixedDecimal<T>) -> int {
        self.value(x)
    }

    fn try_evaluate(&self, x: FixedDecimal<T>) -> (r: Result<FixedDecimal<T>, FixedFastError>) {
        Ok(range_reduce_taylor_exp::<T, TAYLOR_ORDER>(x))
    }
}

/// An exponential table: samples of the direct routine with linear
/// interpolation between the two bracketing samples.
pub struct ExpLinearInterpLookupTable<T: FixedPrecision, const TAYLOR_ORDER: u32> {
    pub lookup: LookupTable<T>,
}

impl<T: FixedPrecision, const TAYLOR_ORDER: u32> ExpLinearInterpLookupTable<T, TAYLOR_ORDER> {
    /// The raw value stored for grid point `i`.
    pub open spec fn val(&self, i: int) -> int {
        exp_raw(
            FixedDecimal::<T>::spec_scale(),
            FixedDecimal::<T>::ln2_raw(),
            self.lookup.sample(i),
            TAYLOR_ORDER as nat,
        )
    }

    /// A well-formed lookup backed by exactly the direct routine's values.
    pub open spec fn wf(&self) -> bool {
        &&& self.lookup.wf()
        &&& forall|i: int|
            0 <= i < self.lookup.spec_size() ==> (#[trigger] self.lookup.table@[i])@ == self.val(i)
    }

    /// The interpolation between the two samples bracketing `xv`.
    pub open spec fn lerp_at(&self, xv: int) -> int {
        let i = self.lookup.spec_index(xv);
        lerp_raw(
            FixedDecimal::<T>::spec_scale(),
            xv,
            self.lookup.sample(i),
            self.lookup.sample(i) + self.lookup.step_size@,
            self.val(i),
            self.val(i + 1),
        )
    }

    /// Table/direct agreement at a grid point: the interpolation evaluated
    /// at the grid point itself gives back exactly the stored direct value.
    pub proof fn lemma_exact_at_sample(&self, i: int)
        requires
            self.wf(),
            0 <= i,
            i + 1 <= self.lookup.spec_size(),
        ensures
            self.lerp_at(self.lookup.sample(i)) == self.val(i),
    {
        crate::arith::lemma_pow10_pos(T::PRECISION as nat);
        self.lookup.lemma_index_at_sample(i);
        crate::interpolation::lemma_lerp_at_left_sample(
            FixedDecimal::<T>::spec_scale(),
            self.lookup.sample(i),
            self.lookup.sample(i) + self.lookup.step_size@,
            self.val(i),
            self.val(i + 1),
        );
    }

    /// What evaluation returns: the interpolation, except in the last
    /// bucket, which clamps to its own sample since the exponential family
    /// has no natural saturating bound.
    pub open spec fn spec_value(&self, xv: int) -> int {
        let i = self.lookup.spec_index(xv);
        if i + 1 >= self.lookup.spec_size() {
            self.val(i)
        } else {
            self.lerp_at(xv)
        }
    }

    /// The inputs evaluation accepts: in-domain values whose bucket exists,
    /// with the interpolation arithmetic in range where it is used.
    pub open spec fn eval_ok(&self, xv: int) -> bool {
        let i = self.lookup.spec_index(xv);
        &&& self.wf()
        &&& self.lookup.start@ <= xv <= self.lookup.end@
        &&& i < self.lookup.spec_size()
        &&& (i + 1 < self.lookup.spec_size() ==> lerp_ok(
            FixedDecimal::<T>::spec_scale(),
            xv,
            self.lookup.sample(i),
            self.lookup.sample(i) + self.lookup.step_size@,
            self.val(i),
            self.val(i + 1),
        ))
    }

    /// Builds the table by sampling the direct routine over the grid.
    pub fn new(
        start: FixedDecimal<T>,
        end: FixedDecimal<T>,
        step_size: FixedDecimal<T>,
    ) -> (r: Self)
        requires
            table_params_ok::<T>(start@, end@, step_size@),
            forall|i: int|
                0 <= i < spec_table_size::<T>(start@, end@, step_size@) ==> exp_defined(
                    FixedDecimal::<T>::spec_scale(),
                    FixedDecimal::<T>::ln2_raw(),
                    start@ + #[trigger] (step_size@ * i),
                    TAYLOR_ORDER as nat,
                ),
        ensures
            r.wf(),
            r.lookup.start == start,
            r.lookup.end == end,
            r.lookup.step_size == step_size,
    {
        let ghost s = FixedDecimal::<T>::spec_scale();
        let ghost l2 = FixedDecimal::<T>::ln2_raw();
        Self {
            lookup: LookupTable::new(
                start,
                end,
                step_size,
                range_reduce_taylor_exp::<T, TAYLOR_ORDER>,
                Ghost(|xv: int| exp_raw(s, l2, xv, TAYLOR_ORDER as nat)),
            ),
        }
    }
}

impl<T: FixedPrecision, const TAYLOR_ORDER: u32> Function<T> for ExpLinearInterpLookupTable<
    T,
    TAYLOR_ORDER,
> {
    open spec fn domain(&self, x: FixedDecimal<T>) -> bool {
        self.eval_ok(x@)
    }

    open spec fn value(&self, x: FixedDecimal<T>) -> int {
        self.spec_value(x@)
    }

    fn evaluate(&self, x: FixedDecimal<T>) -> (r: FixedDecimal<T>) {
        proof {
            self.lookup.lemma_index_properties(x@);
        }
        let index = self.lookup.get_index(x).expect("Index not found");
        if index + 1 >= self.lookup.table.len() {
            return self.lookup.table[index];
        }
        proof {
            let ghost i = self.lookup.spec_index(x@);
            assert(in_i128(self.lookup.step_size@ * (i + 1)) && in_i128(self.lookup.sample(i + 1)));
            assert(self.lookup.step_size@ * (i + 1) == self.lookup.step_size@ * i
                + self.lookup.step_size@) by (nonlinear_arith);
        }
        let lower_value = self.lookup.step_size().mul_i128(index as i128).add(self.lookup.start());
        linear_interpolation(
            x,
            lower_value,
            lower_value.add(self.lookup.step_size()),
            self.lookup.table[index],
            self.lookup.table[index + 1],
        )
    }
}

impl<T: FixedPrecision, const TAYLOR_ORDER: u32> TryFunction<T> for ExpLinearInterpLookupTable<
    T,
    TAYLOR_ORDER,
> {
    open spec fn try_domain(&self, x: FixedDecimal<T>) -> bool {
        &&& self.wf()
        &&& (self.lookup.start@ <= x@ < self.lookup.end@ && self.lookup.spec_index(x@)
            < self.lookup.spec_size() ==> self.eval_ok(x@))
    }

    open spec fn try_ok(&self, x: FixedDecimal<T>) -> bool {
        self.lookup.start@ <= x@ < self.lookup.end@ && self.lookup.spec_index(x@)
            < self.lookup.spec_size()
    }

    open spec fn try_value(&self, x: FixedDecimal<T>) -> int {
        self.spec_value(x@)
    }

    fn try_evaluate(&self, x: FixedDecimal<T>) -> (r: Result<FixedDecimal<T>, FixedFastError>)
        ensures
            !(self.lookup.start@ <= x@ < self.lookup.end@ && self.lookup.spec_index(x@)
                < self.lookup.spec_size()) ==> (r matches Err(e) && e matches
                FixedFastError::OutOfRange(v) && v as int == crate::arith::div_tz(
                x@,
                FixedDecimal::<T>::spec_scale(),
            )),
    {
        proof {
            if self.lookup.start@ <= x@ < self.lookup.end@ {
                self.lookup.lemma_index_properties(x@);
            }
        }
        let index = match self.lookup.get_index(x) {
            Ok(i) => i,
            Err(e) => {
                return Err(e);
            },
        };
        // A bucket past the last sample holds no entry: such a value lies
        // outside the sampled grid, an out-of-range error here.
        if index >= self.lookup.table.len() {
            return Err(FixedFastError::OutOfRange(x.to_i128()));
        }
        if index + 1 >= self.lookup.table.len() {
            return Ok(self.lookup.table[index]);
        }
        proof {
            let ghost i = self.lookup.spec_index(x@);
            assert(in_i128(self.lookup.step_size@ * (i + 1)) && in_i128(self.lookup.sample(i + 1)));
            assert(self.lookup.step_size@ * (i + 1) == self.lookup.step_size@ * i
                + self.lookup.step_size@) by (nonlinear_arith);
        }
        let lower_value = self.lookup.step_size().mul_i128(index as i128).add(self.lookup.start());
        Ok(
            linear_interpolation(
                x,
                lower_value,
                lower_value.add(self.lookup.step_size()),
                self.lookup.table[index],
                self.lookup.table[index + 1],
            ),
        )
    }
}

/// With a zero series input every term past the first vanishes and the
/// partial sums stay at one.
proof fn lemma_exp_sum_zero(s: int, i: nat)
    requires
        s >= 1,
    ensures
        i >= 1 ==> exp_term(s, 0, i) == 0,
        exp_sum(s, 0, i) == s,
    decreases i,
{
    if i >= 1 {
        lemma_exp_sum_zero(s, (i - 1) as nat);
        assert(exp_term(s, 0, (i - 1) as nat) * 0 == 0) by (nonlinear_arith);
        crate::arith::lemma_div_tz_zero(s);
        crate::arith::lemma_div_tz_zero(i as int);
    }
}

/// Fixed point: the exponential of zero is exactly one, at any order.
pub proof fn lemma_exp_of_zero(s: int, ln2: int, order: nat)
    requires
        s >= 1,
        ln2 != 0,
    ensures
        exp_raw(s, ln2, 0, order) == s,
{
    crate::arith::lemma_div_tz_zero(ln2);
    crate::arith::lemma_div_tz_zero(s);
    assert(0 * s == 0) by (nonlinear_arith);
    assert(exp_k(s, ln2, 0) == 0);
    assert(ln2 * (0 * s) == 0) by (nonlinear_arith);
    assert(exp_r(s, ln2, 0) == 0);
    lemma_exp_sum_zero(s, order);
    vstd::arithmetic::power2::lemma2_to64();
    assert(exp_gain(s, 0) == s * 1);
    assert(s * 1 == s) by (nonlinear_arith);
    crate::arith::lemma_div_tz_exact(s, s);
}

/// The exponential's domain contains zero whenever the squared scale is
/// representable: every clause of `exp_defined` holds there.
pub proof fn lemma_exp_defined_at_zero(s: int, ln2: int, order: nat)
    requires
        1 <= s,
        0 < ln2 <= i128::MAX,
        s * s <= i128::MAX,
    ensures
        exp_defined(s, ln2, 0, order),
{
    crate::arith::lemma_div_tz_zero(ln2);
    crate::arith::lemma_div_tz_zero(s);
    assert(0 * s == 0) by (nonlinear_arith);
    assert(exp_k(s, ln2, 0) == 0);
    assert(ln2 * (0 * s) == 0) by (nonlinear_arith);
    assert(exp_r(s, ln2, 0) == 0);
    lemma_exp_sum_zero(s, order);
    vstd::arithmetic::power2::lemma2_to64();
    assert(exp_gain(s, 0) == s * 1);
    assert(s * 1 == s) by (nonlinear_arith);
    assert(s <= s * s) by (nonlinear_arith)
        requires
            s >= 1,
    ;
    assert forall|i: nat| 1 <= i <= order implies in_i128(
        #[trigger] exp_term(s, exp_r(s, ln2, 0), (i - 1) as nat) * exp_r(s, ln2, 0),
    ) && in_i128(
        exp_sum(s, exp_r(s, ln2, 0), (i - 1) as nat) + exp_term(s, exp_r(s, ln2, 0), i),
    ) by {
        lemma_exp_sum_zero(s, (i - 1) as nat);
        lemma_exp_sum_zero(s, i);
        assert(exp_term(s, 0, (i - 1) as nat) * 0 == 0) by (nonlinear_arith);
    }
}

/// Bounds on every Taylor term and partial sum when the series input's
/// magnitude stays within one (that is, within the scale).
proof fn lemma_exp_series_bounded(s: int, r: int, i: nat)
    requires
        1 <= s,
        -s <= r <= s,
    ensures
        -s <= exp_term(s, r, i) <= s,
        -((i + 1) * s) <= exp_sum(s, r, i) <= (i + 1) * s,
    decreases i,
{
    if i == 0 {
        assert(1 * s == s) by (nonlinear_arith);
    } else {
        lemma_exp_series_bounded(s, r, (i - 1) as nat);
        let t = exp_term(s, r, (i - 1) as nat);
        assert(-(s * s) <= t * r <= s * s) by (nonlinear_arith)
            requires
                -s <= t <= s,
                -s <= r <= s,
                s >= 1,
        ;
        crate::arith::lemma_div_tz_magnitude(t * r, s, s);
        let q = div_tz(t * r, s);
        assert(-(s * (i as int)) <= q <= s * (i as int)) by (nonlinear_arith)
            requires
                -s <= q <= s,
                i >= 1,
                s >= 1,
        ;
        crate::arith::lemma_div_tz_magnitude(q, i as int, s);
        assert((i + 1) * s == (i as int) * s + s) by (nonlinear_arith);
    }
}

/// A sufficient condition for the exponential's domain: every input
/// within `[-ln2, ln2]` is accepted, provided the series arithmetic fits
/// the scale.  In particular the domain is far from empty.
pub proof fn lemma_exp_defined_bounded(s: int, ln2: int, x: int, order: nat)
    requires
        2 <= s,
        0 < ln2 <= s,
        -ln2 <= x <= ln2,
        2 * (((order + 1) * s) * s) <= i128::MAX,
    ensures
        exp_defined(s, ln2, x, order),
{
    let big = 2 * (((order + 1) * s) * s);
    assert(s * s <= big && (order + 1) * s <= big && 2 * s <= big) by (nonlinear_arith)
        requires
            s >= 2,
            big == 2 * (((order + 1) * s) * s),
            order >= 0,
    ;
    assert(-(s * ln2) <= x * s <= s * ln2) by (nonlinear_arith)
        requires
            -ln2 <= x <= ln2,
            s >= 1,
    ;
    assert(-(s * s) <= x * s <= s * s) by (nonlinear_arith)
        requires
            -(s * ln2) <= x * s <= s * ln2,
            0 < ln2 <= s,
            s >= 1,
    ;
    crate::arith::lemma_div_tz_magnitude(x * s, ln2, s);
    let q1 = div_tz(x * s, ln2);
    assert(-(1 * s) <= q1 <= 1 * s) by (nonlinear_arith)
        requires
            -s <= q1 <= s,
    ;
    crate::arith::lemma_div_tz_magnitude(q1, s, 1);
    let k = exp_k(s, ln2, x);
    assert(-1 <= k <= 1);
    assert(-s <= k * s <= s) by (nonlinear_arith)
        requires
            -1 <= k <= 1,
            s >= 1,
    ;
    assert(-(s * s) <= ln2 * (k * s) <= s * s) by (nonlinear_arith)
        requires
            0 < ln2 <= s,
            -s <= k * s <= s,
    ;
    let r = exp_r(s, ln2, x);
    assert(-s <= r <= s) by {
        if k == 1 {
            assert(ln2 * (1 * s) == ln2 * s) by (nonlinear_arith);
            crate::arith::lemma_div_tz_exact(ln2, s);
            // A full shift only happens at the right endpoint, where the
            // remainder is exactly zero.
            assert(q1 == s) by {
                if q1 < s {
                    vstd::arithmetic::div_mod::lemma_basic_div(q1, s);
                }
            };
            assert(x * s >= s * ln2) by {
                vstd::arithmetic::div_mod::lemma_fundamental_div_mod(x * s, ln2);
                assert(ln2 * s == s * ln2) by (nonlinear_arith);
                assert(ln2 * q1 <= x * s) by (nonlinear_arith)
                    requires
                        x * s == ln2 * q1 + (x * s) % ln2,
                        (x * s) % ln2 >= 0,
                ;
            };
            assert(x == ln2) by (nonlinear_arith)
                requires
                    x * s >= s * ln2,
                    x <= ln2,
                    s >= 1,
            ;
        } else if k == -1 {
            assert(ln2 * ((-1) * s) == -(ln2 * s)) by (nonlinear_arith);
            assert(div_tz(-(ln2 * s), s) == -div_tz(ln2 * s, s)) by {
                assert(ln2 * s >= 0) by (nonlinear_arith)
                    requires
                        ln2 > 0,
                        s >= 1,
                ;
            };
            crate::arith::lemma_div_tz_exact(ln2, s);
            // Symmetric to the right endpoint: only x == -ln2 shifts.
            assert(q1 == -s) by {
                if -s < q1 {
                    assert(q1 <= 0 || k != -1) by {
                        if q1 > 0 {
                            vstd::arithmetic::div_mod::lemma_div_pos_is_pos(q1, s);
                        }
                    };
                    if -s < q1 <= 0 {
                        vstd::arithmetic::div_mod::lemma_basic_div(-q1, s);
                    }
                }
            };
            assert(x * s <= -(s * ln2)) by {
                vstd::arithmetic::div_mod::lemma_fundamental_div_mod(-(x * s), ln2);
                assert(-(x * s) == ln2 * ((-(x * s)) / ln2) + (-(x * s)) % ln2);
                assert(div_tz(x * s, ln2) == -((-(x * s)) / ln2));
                assert(ln2 * s <= -(x * s)) by (nonlinear_arith)
                    requires
                        -(x * s) == ln2 * s + (-(x * s)) % ln2,
                        (-(x * s)) % ln2 >= 0,
                ;
                assert(ln2 * s == s * ln2) by (nonlinear_arith);
            };
            assert(x == -ln2) by (nonlinear_arith)
                requires
                    x * s <= -(s * ln2),
                    x >= -ln2,
                    s >= 1,
            ;
        } else {
            assert(ln2 * (0 * s) == 0) by (nonlinear_arith);
            crate::arith::lemma_div_tz_zero(s);
        }
    };
    assert forall|i: nat| 1 <= i <= order implies in_i128(
        #[trigger] exp_term(s, r, (i - 1) as nat) * r,
    ) && in_i128(exp_sum(s, r, (i - 1) as nat) + exp_term(s, r, i)) by {
        lemma_exp_series_bounded(s, r, (i - 1) as nat);
        lemma_exp_series_bounded(s, r, i);
        let t = exp_term(s, r, (i - 1) as nat);
        assert(-(s * s) <= t * r <= s * s) by (nonlinear_arith)
            requires
                -s <= t <= s,
                -s <= r <= s,
                s >= 1,
        ;
        assert(-((order + 1) * s) <= exp_sum(s, r, (i - 1) as nat) + exp_term(s, r, i) && exp_sum(
            s,
            r,
            (i - 1) as nat,
        ) + exp_term(s, r, i) <= (order + 1) * s) by (nonlinear_arith)
            requires
                -((i as int) * s) <= exp_sum(s, r, (i - 1) as nat) <= (i as int) * s,
                -s <= exp_term(s, r, i) <= s,
                1 <= i <= order,
                s >= 1,
        ;
    }
    vstd::arithmetic::power2::lemma2_to64();
    let gain = exp_gain(s, k);
    assert(0 <= gain <= 2 * s) by {
        if k == 1 {
            assert(s * (pow2(1nat) as int) == 2 * s) by (nonlinear_arith)
                requires
                    pow2(1nat) == 2,
            ;
        } else if k == 0 {
            assert(s * (pow2(0nat) as int) == s) by (nonlinear_arith)
                requires
                    pow2(0nat) == 1,
            ;
        } else {
            lemma_div_tz_bounds(s, pow2(1nat) as int);
        }
    };
    lemma_exp_series_bounded(s, r, order);
    assert(-big <= exp_sum(s, r, order) * gain <= big) by (nonlinear_arith)
        requires
            -((order + 1) * s) <= exp_sum(s, r, order) <= (order + 1) * s,
            0 <= gain <= 2 * s,
            big == 2 * (((order + 1) * s) * s),
            s >= 1,
    ;
}

} // verus!
