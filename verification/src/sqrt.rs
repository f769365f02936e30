//! Newton–Raphson square root with a fixed, compile-time iteration count.

use vstd::prelude::*;

use crate::arith::{div_tz, in_i128, lemma_div_tz_bounds};
use crate::error::FixedFastError;
use crate::fixed_decimal::{FixedDecimal, FixedPrecision};
use crate::function::{Function, TryFunction};
use crate::interpolation::{lerp_ok, lerp_raw, linear_interpolation};
use crate::lookup_table::{spec_table_size, table_params_ok, LookupTable};

verus! {

broadcast use crate::fixed_decimal::lemma_view_in_range;

/// The `n`-th Newton iterate for the square root of the raw value `x` at
/// scale `s`, starting from `x / 2` and refining with
/// `y := (y + x/y) / 2` in scaled arithmetic.
pub open spec fn sqrt_y(s: int, x: int, n: nat) -> int
    decreases n,
{
    if n == 0 {
        div_tz(x, 2)
    } else {
        let y = sqrt_y(s, x, (n - 1) as nat);
        div_tz(y + div_tz(x * s, y), 2)
    }
}

/// Step `n` of the iteration is defined: the current iterate is a usable
/// divisor and the intermediate sum fits an `i128`.
pub open spec fn sqrt_step_ok(s: int, x: int, n: nat) -> bool {
    let y = sqrt_y(s, x, n);
    &&& y != 0
    &&& !(x * s == i128::MIN && y == -1)
    &&& in_i128(div_tz(x * s, y))
    &&& in_i128(y + div_tz(x * s, y))
}

/// The whole iteration of the given depth is defined for `x`.
pub open spec fn sqrt_defined(s: int, x: int, depth: nat) -> bool {
    &&& in_i128(x * s)
    &&& forall|n: nat| n < depth ==> #[trigger] sqrt_step_ok(s, x, n)
}

/// What the square-root routine returns: zero for zero, the final Newton
/// iterate otherwise.
pub open spec fn sqrt_raw(s: int, x: int, depth: nat) -> int {
    if x == 0 {
        0
    } else {
        sqrt_y(s, x, depth)
    }
}

/// Direct Newton–Raphson square root.  A zero input returns zero at once;
/// any other input runs exactly `APPROX_DEPTH` refinement steps.
pub fn sqrt_newton_raphson<T: FixedPrecision, const APPROX_DEPTH: u32>(
    x: FixedDecimal<T>,
) -> (r: FixedDecimal<T>)
    requires
        FixedDecimal::<T>::precision_ok(),
        x@ != 0 ==> sqrt_defined(FixedDecimal::<T>::spec_scale(), x@, APPROX_DEPTH as nat),
    ensures
        r@ == sqrt_raw(FixedDecimal::<T>::spec_scale(), x@, APPROX_DEPTH as nat),
{
    if x.to_raw() == 0 {
        return FixedDecimal::<T>::zero();
    }
    let ghost s = FixedDecimal::<T>::spec_scale();
    let mut y = x.div_i128(2);
    let mut i: u32 = 0;
    while i < APPROX_DEPTH
        invariant
            0 <= i <= APPROX_DEPTH,
            FixedDecimal::<T>::precision_ok(),
            x@ != 0,
            s == FixedDecimal::<T>::spec_scale(),
            sqrt_defined(s, x@, APPROX_DEPTH as nat),
            y@ == sqrt_y(s, x@, i as nat),
        decreases APPROX_DEPTH - i,
    {
        proof {
            assert(sqrt_step_ok(s, x@, i as nat));
            lemma_div_tz_bounds(y@ + div_tz(x@ * s, y@), 2);
        }
        y = (y.add(x.div(y))).div_i128(2);
        i = i + 1;
    }
    y
}

/// Fallible Newton–Raphson square root: a negative input is a domain
/// error, zero maps to zero, and any other input runs the same iteration
/// as the direct form.
pub fn sqrt_newton_raphson_try<T: FixedPrecision, const APPROX_DEPTH: u32>(
    x: FixedDecimal<T>,
) -> (r: Result<FixedDecimal<T>, FixedFastError>)
    requires
        FixedDecimal::<T>::precision_ok(),
        x@ > 0 ==> sqrt_defined(FixedDecimal::<T>::spec_scale(), x@, APPROX_DEPTH as nat),
    ensures
        x@ < 0 ==> (r matches Err(e) && e matches FixedFastError::DomainError(m) && m@
            == "sqrt is undefined for negative numbers"@),
        x@ >= 0 ==> (r matches Ok(v) && v@ == sqrt_raw(
            FixedDecimal::<T>::spec_scale(),
            x@,
            APPROX_DEPTH as nat,
        )),
{
    if x.to_raw() < 0 {
        return Err(FixedFastError::DomainError("sqrt is undefined for negative numbers"));
    }
    Ok(sqrt_newton_raphson::<T, APPROX_DEPTH>(x))
}

/// The direct square root as a capability value.
pub struct SqrtNewtonRaphson<T: FixedPrecision, const APPROX_DEPTH: u32> {
    _precision: core::marker::PhantomData<T>,
}

impl<T: FixedPrecision, const APPROX_DEPTH: u32> SqrtNewtonRaphson<T, APPROX_DEPTH> {
    pub fn new() -> (r: Self) {
        Self { _precision: core::marker::PhantomData }
    }
}

impl<T: FixedPrecision, const APPROX_DEPTH: u32> Function<T> for SqrtNewtonRaphson<
    T,
    APPROX_DEPTH,
> {
    open spec fn domain(&self, x: FixedDecimal<T>) -> bool {
        &&& FixedDecimal::<T>::precision_ok()
        &&& (x@ != 0 ==> sqrt_defined(FixedDecimal::<T>::spec_scale(), x@, APPROX_DEPTH as nat))
    }

    open spec fn value(&self, x: FixedDecimal<T>) -> int {
        sqrt_raw(FixedDecimal::<T>::spec_scale(), x@, APPROX_DEPTH as nat)
    }

    fn evaluate(&self, x: FixedDecimal<T>) -> (r: FixedDecimal<T>) {
        sqrt_newton_raphson::<T, APPROX_DEPTH>(x)
    }
}

impl<T: FixedPrecision, const APPROX_DEPTH: u32> TryFunction<T> for SqrtNewtonRaphson<
    T,
    APPROX_DEPTH,
> {
    open spec fn try_domain(&self, x: FixedDecimal<T>) -> bool {
        &&& FixedDecimal::<T>::precision_ok()
        &&& (x@ > 0 ==> sqrt_defined(FixedDecimal::<T>::spec_scale(), x@, APPROX_DEPTH as nat))
    }

    open spec fn try_ok(&self, x: FixedDecimal<T>) -> bool {
        x@ >= 0
    }

    open spec fn try_value(&self, x: FixedDecimal<T>) -> int {
        sqrt_raw(FixedDecimal::<T>::spec_scale(), x@, APPROX_DEPTH as nat)
    }

    fn try_evaluate(&self, x: FixedDecimal<T>) -> (r: Result<FixedDecimal<T>, FixedFastError>)
        ensures
            x@ < 0 ==> (r matches Err(e) && e matches FixedFastError::DomainError(m) && m@
                == "sqrt is undefined for negative numbers"@),
    {
        sqrt_newton_raphson_try::<T, APPROX_DEPTH>(x)
    }
}

/// A square-root table: samples of the direct routine with linear
/// interpolation between them, clamping to the last sample at the upper
/// edge.
pub struct SqrtLinearInterpLookupTable<T: FixedPrecision, const APPROX_DEPTH: u32> {
    pub lookup: LookupTable<T>,
}

impl<T: FixedPrecision, const APPROX_DEPTH: u32> SqrtLinearInterpLookupTable<T, APPROX_DEPTH> {
    /// The raw value stored for grid point `i`.
    pub open spec fn val(&self, i: int) -> int {
        sqrt_raw(FixedDecimal::<T>::spec_scale(), self.lookup.sample(i), APPROX_DEPTH as nat)
    }

    /// A well-formed lookup backed by exactly the direct routine's values.
    pub open spec fn wf(&self) -> bool {
        &&& self.lookup.wf()
        &&& forall|i: int|
            0 <= i < self.lookup.spec_size() ==> (#[trigger] self.lookup.table@[i])@ == self.val(i)
    }

    /// The interpolation between the two samples bracketing `xv`.
    pub open spec fn lerp_at(&self, xv: int) -> int {
        let i = self.lookup.spec_index(xv);
        lerp_raw(
            FixedDecimal::<T>::spec_scale(),
            xv,
            self.lookup.sample(i),
            self.lookup.sample(i) + self.lookup.step_size@,
            self.val(i),
            self.val(i + 1),
        )
    }

    /// Table/direct agreement at a grid point: the interpolation evaluated
    /// at the grid point itself gives back exactly the stored direct value.
    pub proof fn lemma_exact_at_sample(&self, i: int)
        requires
            self.wf(),
            0 <= i,
            i + 1 <= self.lookup.spec_size(),
        ensures
            self.lerp_at(self.lookup.sample(i)) == self.val(i),
    {
        crate::arith::lemma_pow10_pos(T::PRECISION as nat);
        self.lookup.lemma_index_at_sample(i);
        crate::interpolation::lemma_lerp_at_left_sample(
            FixedDecimal::<T>::spec_scale(),
            self.lookup.sample(i),
            self.lookup.sample(i) + self.lookup.step_size@,
            self.val(i),
            self.val(i + 1),
        );
    }

    /// What evaluation returns: the interpolation, except in the last
    /// bucket, which clamps to its own sample.
    pub open spec fn spec_value(&self, xv: int) -> int {
        let i = self.lookup.spec_index(xv);
        if i + 1 >= self.lookup.spec_size() {
            self.val(i)
        } else {
            self.lerp_at(xv)
        }
    }

    /// The inputs evaluation accepts: in-domain values whose bucket exists,
    /// with the interpolation arithmetic in range where it is used.
    pub open spec fn eval_ok(&self, xv: int) -> bool {
        let i = self.lookup.spec_index(xv);
        &&& self.wf()
        &&& self.lookup.start@ <= xv <= self.lookup.end@
        &&& i < self.lookup.spec_size()
        &&& (i + 1 < self.lookup.spec_size() ==> lerp_ok(
            FixedDecimal::<T>::spec_scale(),
            xv,
            self.lookup.sample(i),
            self.lookup.sample(i) + self.lookup.step_size@,
            self.val(i),
            self.val(i + 1),
        ))
    }

    /// Builds the table by sampling the direct routine over the grid.
    pub fn new(
        start: FixedDecimal<T>,
        end: FixedDecimal<T>,
        step_size: FixedDecimal<T>,
    ) -> (r: Self)
        requires
            table_params_ok::<T>(start@, end@, step_size@),
            forall|i: int|
                0 <= i < spec_table_size::<T>(start@, end@, step_size@) ==> (start@ + #[trigger] (
                step_size@ * i) != 0 ==> sqrt_defined(
                    FixedDecimal::<T>::spec_scale(),
                    start@ + step_size@ * i,
                    APPROX_DEPTH as nat,
                )),
        ensures
            r.wf(),
            r.lookup.start == start,
            r.lookup.end == end,
            r.lookup.step_size == step_size,
    {
        let ghost s = FixedDecimal::<T>::spec_scale();
        Self {
            lookup: LookupTable::new(
                start,
                end,
                step_size,
                sqrt_newton_raphson::<T, APPROX_DEPTH>,
                Ghost(|xv: int| sqrt_raw(s, xv, APPROX_DEPTH as nat)),
            ),
        }
    }
}

impl<T: FixedPrecision, const APPROX_DEPTH: u32> Function<T> for SqrtLinearInterpLookupTable<
    T,
    APPROX_DEPTH,
> {
    open spec fn domain(&self, x: FixedDecimal<T>) -> bool {
        self.eval_ok(x@)
    }

    open spec fn value(&self, x: FixedDecimal<T>) -> int {
        self.spec_value(x@)
    }

    fn evaluate(&self, x: FixedDecimal<T>) -> (r: FixedDecimal<T>) {
        proof {
            self.lookup.lemma_index_properties(x@);
        }
        let index = self.lookup.get_index(x).expect("Index not found");
        if index + 1 >= self.lookup.table.len() {
            return self.lookup.table[index];
        }
        proof {
            let ghost i = self.lookup.spec_index(x@);
            assert(in_i128(self.lookup.step_size@ * (i + 1)) && in_i128(self.lookup.sample(i + 1)));
            assert(self.lookup.step_size@ * (i + 1) == self.lookup.step_size@ * i
                + self.lookup.step_size@) by (nonlinear_arith);
        }
        let lower_value = self.lookup.step_size().mul_i128(index as i128).add(self.lookup.start());
        linear_interpolation(
            x,
            lower_value,
            lower_value.add(self.lookup.step_size()),
            self.lookup.table[index],
            self.lookup.table[index + 1],
        )
    }
}

impl<T: FixedPrecision, const APPROX_DEPTH: u32> TryFunction<T> for SqrtLinearInterpLookupTable<
    T,
    APPROX_DEPTH,
> {
    open spec fn try_domain(&self, x: FixedDecimal<T>) -> bool {
        &&& self.wf()
        &&& (self.lookup.start@ <= x@ < self.lookup.end@ && self.lookup.spec_index(x@)
            < self.lookup.spec_size() ==> self.eval_ok(x@))
    }

    open spec fn try_ok(&self, x: FixedDecimal<T>) -> bool {
        self.lookup.start@ <= x@ < self.lookup.end@ && self.lookup.spec_index(x@)
            < self.lookup.spec_size()
    }

    open spec fn try_value(&self, x: FixedDecimal<T>) -> int {
        self.spec_value(x@)
    }

    fn try_evaluate(&self, x: FixedDecimal<T>) -> (r: Result<FixedDecimal<T>, FixedFastError>)
        ensures
            !(self.lookup.start@ <= x@ < self.lookup.end@ && self.lookup.spec_index(x@)
                < self.lookup.spec_size()) ==> (r matches Err(e) && e matches
                FixedFastError::OutOfRange(v) && v as int == crate::arith::div_tz(
                x@,
                FixedDecimal::<T>::spec_scale(),
            )),
    {
        proof {
            if self.lookup.start@ <= x@ < self.lookup.end@ {
                self.lookup.lemma_index_properties(x@);
            }
        }
        let index = match self.lookup.get_index(x) {
            Ok(i) => i,
            Err(e) => {
                return Err(e);
            },
        };
        // A bucket past the last sample holds no entry: such a value lies
        // outside the sampled grid, an out-of-range error here.
        if index >= self.lookup.table.len() {
            return Err(FixedFastError::OutOfRange(x.to_i128()));
        }
        if index + 1 >= self.lookup.table.len() {
            return Ok(self.lookup.table[index]);
        }
        proof {
            let ghost i = self.lookup.spec_index(x@);
            assert(in_i128(self.lookup.step_size@ * (i + 1)) && in_i128(self.lookup.sample(i + 1)));
            assert(self.lookup.step_size@ * (i + 1) == self.lookup.step_size@ * i
                + self.lookup.step_size@) by (nonlinear_arith);
        }
        let lower_value = self.lookup.step_size().mul_i128(index as i128).add(self.lookup.start());
        Ok(
            linear_interpolation(
                x,
                lower_value,
                lower_value.add(self.lookup.step_size()),
                self.lookup.table[index],
                self.lookup.table[index + 1],
            ),
        )
    }
}

/// Fixed point: the square root of zero is exactly zero, at any depth.
pub proof fn lemma_sqrt_of_zero(s: int, depth: nat)
    ensures
        sqrt_raw(s, 0, depth) == 0,
{
}

/// Bounds on every Newton iterate for an input of at least two raw units:
/// the iterate stays between one and the scaled input, so it never becomes
/// a zero divisor.
proof fn lemma_sqrt_iterates_bounded(s: int, x: int, n: nat)
    requires
        1 <= s,
        2 <= x,
        2 * (x * s) <= i128::MAX,
    ensures
        1 <= sqrt_y(s, x, n) <= x * s,
    decreases n,
{
    assert(x <= x * s) by (nonlinear_arith)
        requires
            x >= 0,
            s >= 1,
    ;
    if n == 0 {
        vstd::arithmetic::div_mod::lemma_div_by_multiple(1, 2);
        vstd::arithmetic::div_mod::lemma_div_is_ordered(2, x, 2);
        lemma_div_tz_bounds(x, 2);
    } else {
        lemma_sqrt_iterates_bounded(s, x, (n - 1) as nat);
        let y = sqrt_y(s, x, (n - 1) as nat);
        let q = div_tz(x * s, y);
        assert(x * s >= 0) by (nonlinear_arith)
            requires
                x >= 0,
                s >= 1,
        ;
        assert(q >= 1) by {
            vstd::arithmetic::div_mod::lemma_div_by_multiple(1, y);
            assert(1 * y == y) by (nonlinear_arith);
            vstd::arithmetic::div_mod::lemma_div_is_ordered(y, x * s, y);
        };
        assert(q <= x * s) by {
            lemma_div_tz_bounds(x * s, y);
        };
        assert(div_tz(y + q, 2) >= 1) by {
            vstd::arithmetic::div_mod::lemma_div_by_multiple(1, 2);
            vstd::arithmetic::div_mod::lemma_div_is_ordered(2, y + q, 2);
        };
        assert(div_tz(y + q, 2) <= x * s) by {
            vstd::arithmetic::div_mod::lemma_div_multiples_vanish(x * s, 2);
            vstd::arithmetic::div_mod::lemma_div_is_ordered(y + q, 2 * (x * s), 2);
        };
    }
}

/// A sufficient condition for the square root's domain: every input of at
/// least two raw units is accepted once twice the scaled input fits.  In
/// particular the domain is far from empty.
pub proof fn lemma_sqrt_defined_pos(s: int, x: int, depth: nat)
    requires
        1 <= s,
        2 <= x,
        2 * (x * s) <= i128::MAX,
    ensures
        sqrt_defined(s, x, depth),
{
    assert(0 <= x * s) by (nonlinear_arith)
        requires
            x >= 0,
            s >= 1,
    ;
    assert(x * s <= 2 * (x * s)) by (nonlinear_arith)
        requires
            x * s >= 0,
    ;
    assert forall|n: nat| n < depth implies #[trigger] sqrt_step_ok(s, x, n) by {
        lemma_sqrt_iterates_bounded(s, x, n);
        let y = sqrt_y(s, x, n);
        lemma_div_tz_bounds(x * s, y);
    }
}

} // verus!
