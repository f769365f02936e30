//! A uniform sampling of a function over `[start, end)` with O(1) bucket
//! lookup.

use vstd::prelude::*;

use crate::arith::{div_tz, in_i128, lemma_div_tz_bounds, lemma_div_tz_ordered, lemma_mul_le,
    lemma_pow10_pos};
use crate::error::FixedFastError;
use crate::fixed_decimal::{FixedDecimal, FixedPrecision};

verus! {

broadcast use crate::fixed_decimal::lemma_view_in_range;

/// The sample count that a table over `[startv, endv)` at step `stepv`
/// gets: `(end - start) / step`, computed with the same two truncating
/// divisions as the constructor.
pub open spec fn spec_table_size<T: FixedPrecision>(startv: int, endv: int, stepv: int) -> int {
    div_tz(FixedDecimal::<T>::div_raw(endv - startv, stepv), FixedDecimal::<T>::spec_scale())
}

/// The numeric conditions under which a table over `[startv, endv)` at step
/// `stepv` can be built: an ordered domain, a positive step, and all grid
/// arithmetic within `i128`.
pub open spec fn table_params_ok<T: FixedPrecision>(startv: int, endv: int, stepv: int) -> bool {
    &&& FixedDecimal::<T>::precision_ok()
    &&& stepv > 0
    &&& startv <= endv
    &&& in_i128((endv - startv) * FixedDecimal::<T>::spec_scale())
    &&& spec_table_size::<T>(startv, endv, stepv) <= usize::MAX
    &&& forall|i: int|
        0 <= i <= spec_table_size::<T>(startv, endv, stepv) ==> in_i128(
            #[trigger] (stepv * i),
        ) && in_i128(startv + stepv * i)
}

pub struct LookupTable<T: FixedPrecision> {
    pub table: Vec<FixedDecimal<T>>,
    pub start: FixedDecimal<T>,
    pub end: FixedDecimal<T>,
    pub step_size: FixedDecimal<T>,
}

impl<T: FixedPrecision> LookupTable<T> {
    /// The number of samples: `(end - start) / step`, both divisions
    /// truncating exactly as the constructor computes them.
    pub open spec fn spec_size(&self) -> int {
        div_tz(
            FixedDecimal::<T>::div_raw(self.end@ - self.start@, self.step_size@),
            FixedDecimal::<T>::spec_scale(),
        )
    }

    /// The raw value of the `i`-th grid point, `start + step * i`.
    pub open spec fn sample(&self, i: int) -> int {
        self.start@ + self.step_size@ * i
    }

    /// The bucket of a raw value `xv`: `(xv - start) / step`, truncating.
    pub open spec fn spec_index(&self, xv: int) -> int {
        div_tz(
            FixedDecimal::<T>::div_raw(xv - self.start@, self.step_size@),
            FixedDecimal::<T>::spec_scale(),
        )
    }

    /// Structural well-formedness: a positive step, an ordered domain whose
    /// width stays representable, and a backing vector of exactly one entry
    /// per grid point.
    pub open spec fn wf(&self) -> bool {
        &&& FixedDecimal::<T>::precision_ok()
        &&& self.step_size@ > 0
        &&& self.start@ <= self.end@
        &&& in_i128((self.end@ - self.start@) * FixedDecimal::<T>::spec_scale())
        &&& self.spec_size() <= usize::MAX
        &&& self.table@.len() == self.spec_size()
        &&& forall|i: int|
            0 <= i <= self.spec_size() ==> in_i128(#[trigger] (self.step_size@ * i)) && in_i128(
                self.sample(i),
            )
    }

    /// Builds the table by sampling `f` at every grid point.  The caller
    /// supplies a function callable on each grid point whose result is
    /// pinned by the spec function `g`; entry `i` then holds `g(sample(i))`.
    pub fn new<F: Fn(FixedDecimal<T>) -> FixedDecimal<T>>(
        start: FixedDecimal<T>,
        end: FixedDecimal<T>,
        step_size: FixedDecimal<T>,
        f: F,
        Ghost(g): Ghost<spec_fn(int) -> int>,
    ) -> (r: Self)
        requires
            table_params_ok::<T>(start@, end@, step_size@),
            forall|i: int, v: FixedDecimal<T>|
                #![trigger call_requires(f, (v,)), step_size@ * i]
                (0 <= i < spec_table_size::<T>(start@, end@, step_size@) && v@ == start@
                    + step_size@ * i) ==> call_requires(f, (v,)),
            forall|v: FixedDecimal<T>, y: FixedDecimal<T>|
                #[trigger] call_ensures(f, (v,), y) ==> y@ == g(v@),
        ensures
            r.wf(),
            r.start == start,
            r.end == end,
            r.step_size == step_size,
            forall|i: int| 0 <= i < r.spec_size() ==> (#[trigger] r.table@[i])@ == g(r.sample(i)),
    {
        proof {
            crate::arith::lemma_pow10_pos(T::PRECISION as nat);
            assert(end@ - start@ <= (end@ - start@) * FixedDecimal::<T>::spec_scale())
                by (nonlinear_arith)
                requires
                    end@ - start@ >= 0,
                    FixedDecimal::<T>::spec_scale() >= 1,
            ;
            lemma_div_tz_bounds((end@ - start@) * FixedDecimal::<T>::spec_scale(), step_size@);
            lemma_div_tz_bounds(
                FixedDecimal::<T>::div_raw(end@ - start@, step_size@),
                FixedDecimal::<T>::spec_scale(),
            );
        }
        let table_size = (end.sub(start)).div(step_size).to_i128() as usize;
        let ghost size = div_tz(
            FixedDecimal::<T>::div_raw(end@ - start@, step_size@),
            FixedDecimal::<T>::spec_scale(),
        );
        let mut table: Vec<FixedDecimal<T>> = Vec::new();
        let mut i: usize = 0;
        while i < table_size
            invariant
                0 <= i <= table_size,
                table_size == size,
                FixedDecimal::<T>::precision_ok(),
                step_size@ > 0,
                table@.len() == i,
                forall|j: int|
                    0 <= j <= size ==> in_i128(#[trigger] (step_size@ * j)) && in_i128(
                        start@ + step_size@ * j,
                    ),
                forall|j: int, v: FixedDecimal<T>|
                    #![trigger call_requires(f, (v,)), step_size@ * j]
                    (0 <= j < size && v@ == start@ + step_size@ * j) ==> call_requires(f, (v,)),
                forall|v: FixedDecimal<T>, y: FixedDecimal<T>|
                    #[trigger] call_ensures(f, (v,), y) ==> y@ == g(v@),
                forall|j: int|
                    0 <= j < i ==> (#[trigger] table@[j])@ == g(start@ + step_size@ * j),
            decreases table_size - i,
        {
            proof {
                assert(in_i128(step_size@ * (i as int)));
            }
            let x = start.add(step_size.mul_i128(i as i128));
            proof {
                assert(x@ == start@ + step_size@ * (i as int));
                assert(call_requires(f, (x,)));
            }
            let y = f(x);
            table.push(y);
            i = i + 1;
        }
        Self { table, start, end, step_size }
    }

    /// The two-stage truncating quotient `((a * scale) / st) / scale` that
    /// `spec_index` and `spec_size` take is the plain Euclidean quotient
    /// `a / st` for a nonnegative dividend.
    proof fn lemma_double_div(a: int, st: int)
        requires
            FixedDecimal::<T>::precision_ok(),
            st > 0,
            a >= 0,
        ensures
            div_tz(FixedDecimal::<T>::div_raw(a, st), FixedDecimal::<T>::spec_scale()) == a / st,
    {
        let s = FixedDecimal::<T>::spec_scale();
        crate::arith::lemma_pow10_pos(T::PRECISION as nat);
        lemma_mul_le(a, 0, s);
        vstd::arithmetic::div_mod::lemma_div_pos_is_pos(a * s, st);
        vstd::arithmetic::div_mod::lemma_div_denominator(a * s, st, s);
        vstd::arithmetic::div_mod::lemma_div_denominator(a * s, s, st);
        assert(a * s == s * a) by (nonlinear_arith);
        vstd::arithmetic::div_mod::lemma_div_multiples_vanish(a, s);
        assert(st * s == s * st) by (nonlinear_arith);
    }

    /// For an in-domain value the bucket is the Euclidean quotient of the
    /// offset by the step: its grid point sits at or below the value, the
    /// next grid point strictly above, and the bucket never exceeds the
    /// sample count.
    pub proof fn lemma_index_properties(&self, xv: int)
        requires
            self.wf(),
            self.start@ <= xv <= self.end@,
        ensures
            self.spec_index(xv) == (xv - self.start@) / self.step_size@,
            self.spec_size() == (self.end@ - self.start@) / self.step_size@,
            0 <= self.spec_index(xv) <= self.spec_size(),
            self.sample(self.spec_index(xv)) <= xv,
            xv < self.sample(self.spec_index(xv)) + self.step_size@,
    {
        let st = self.step_size@;
        let a = xv - self.start@;
        let b = self.end@ - self.start@;
        Self::lemma_double_div(a, st);
        Self::lemma_double_div(b, st);
        vstd::arithmetic::div_mod::lemma_fundamental_div_mod(a, st);
        vstd::arithmetic::div_mod::lemma_mod_bound(a, st);
        vstd::arithmetic::div_mod::lemma_div_is_ordered(a, b, st);
        vstd::arithmetic::div_mod::lemma_div_pos_is_pos(a, st);
    }

    /// A grid point falls in its own bucket.
    pub proof fn lemma_index_at_sample(&self, i: int)
        requires
            self.wf(),
            0 <= i <= self.spec_size(),
        ensures
            self.spec_index(self.sample(i)) == i,
    {
        assert(self.step_size@ * i >= 0) by (nonlinear_arith)
            requires
                self.step_size@ > 0,
                i >= 0,
        ;
        Self::lemma_double_div(self.step_size@ * i, self.step_size@);
        assert((i * self.step_size@) / self.step_size@ == i) by {
            vstd::arithmetic::div_mod::lemma_div_by_multiple(i, self.step_size@);
        };
        assert(self.step_size@ * i == i * self.step_size@) by (nonlinear_arith);
    }

    /// The bucket index of `x`, or `OutOfRange` when `x` lies outside the
    /// sampled domain `[start, end)`.
    pub fn get_index(&self, x: FixedDecimal<T>) -> (r: Result<usize, FixedFastError>)
        requires
            self.wf(),
        ensures
            (x@ < self.start@ || x@ >= self.end@) ==> (r matches Err(e) && e matches
                FixedFastError::OutOfRange(v) && v as int == div_tz(
                x@,
                FixedDecimal::<T>::spec_scale(),
            )),
            (self.start@ <= x@ < self.end@) ==> (r matches Ok(i) && i as int == self.spec_index(
                x@,
            ) && 0 <= self.spec_index(x@) <= self.spec_size() && self.sample(self.spec_index(x@))
                <= x@ < self.sample(self.spec_index(x@)) + self.step_size@),
    {
        if x.to_raw() < self.start.to_raw() || x.to_raw() >= self.end.to_raw() {
            return Err(FixedFastError::OutOfRange(x.to_i128()));
        }
        proof {
            crate::arith::lemma_pow10_pos(T::PRECISION as nat);
            let s = FixedDecimal::<T>::spec_scale();
            assert(self.end@ - self.start@ <= (self.end@ - self.start@) * s) by (nonlinear_arith)
                requires
                    self.end@ - self.start@ >= 0,
                    s >= 1,
            ;
            // 0 <= (x - start) * scale <= (end - start) * scale, so every
            // intermediate quotient is bounded by the table size.
            lemma_mul_le(x@ - self.start@, 0, s);
            lemma_mul_le(s, x@ - self.start@, self.end@ - self.start@);
            assert((x@ - self.start@) * s == s * (x@ - self.start@)) by (nonlinear_arith);
            assert((self.end@ - self.start@) * s == s * (self.end@ - self.start@))
                by (nonlinear_arith);
            lemma_div_tz_ordered(
                (x@ - self.start@) * s,
                (self.end@ - self.start@) * s,
                self.step_size@,
            );
            lemma_div_tz_bounds((x@ - self.start@) * s, self.step_size@);
            lemma_div_tz_ordered(
                FixedDecimal::<T>::div_raw(x@ - self.start@, self.step_size@),
                FixedDecimal::<T>::div_raw(self.end@ - self.start@, self.step_size@),
                s,
            );
            lemma_div_tz_bounds(FixedDecimal::<T>::div_raw(x@ - self.start@, self.step_size@), s);
            crate::arith::lemma_div_tz_zero(self.step_size@);
            crate::arith::lemma_div_tz_zero(s);
            lemma_div_tz_ordered(0, (x@ - self.start@) * s, self.step_size@);
            lemma_div_tz_ordered(
                0,
                FixedDecimal::<T>::div_raw(x@ - self.start@, self.step_size@),
                s,
            );
        }
        proof {
            self.lemma_index_properties(x@);
        }
        let index = (x.sub(self.start)).div(self.step_size).to_i128() as usize;
        Ok(index)
    }

    pub fn step_size(&self) -> (r: FixedDecimal<T>)
        ensures
            r == self.step_size,
    {
        self.step_size
    }

    pub fn start(&self) -> (r: FixedDecimal<T>)
        ensures
            r == self.start,
    {
        self.start
    }

    pub fn end(&self) -> (r: FixedDecimal<T>)
        ensures
            r == self.end,
    {
        self.end
    }
}

} // verus!
