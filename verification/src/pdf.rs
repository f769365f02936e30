//! Standard normal probability density, composed from the square-root and
//! exponential primitives: `pdf(x) = (1 / sqrt(2 pi)) * exp(-x^2 / 2)`.

use vstd::prelude::*;

use crate::arith::{div_tz, in_i128, lemma_div_tz_bounds};
use crate::exp::{exp_defined, exp_raw, range_reduce_taylor_exp};
use crate::fixed_decimal::{FixedDecimal, FixedPrecision};
use crate::error::FixedFastError;
use crate::function::{Function, TryFunction};
use crate::interpolation::{lerp_ok, lerp_raw, linear_interpolation};
use crate::lookup_table::{spec_table_size, table_params_ok, LookupTable};
use crate::sqrt::{sqrt_defined, sqrt_newton_raphson, sqrt_raw};

verus! {

broadcast use crate::fixed_decimal::lemma_view_in_range;

/// The fixed iteration depth the density uses for its square root and its
/// exponential.
pub const PDF_DEPTH: u32 = 20;

/// The raw normalization factor `1 / sqrt(2 pi)`.
pub open spec fn pdf_coef_raw<T: FixedPrecision>() -> int {
    let s = FixedDecimal::<T>::spec_scale();
    div_tz(s * s, sqrt_raw(s, 2 * FixedDecimal::<T>::pi_raw(), PDF_DEPTH as nat))
}

/// The raw series input `-x^2 / 2`.
pub open spec fn pdf_exponent_raw<T: FixedPrecision>(x: int) -> int {
    div_tz(-FixedDecimal::<T>::squared_raw(x), 2)
}

/// What the density routine returns on the raw value `x`.
pub open spec fn pdf_raw<T: FixedPrecision>(x: int) -> int {
    let s = FixedDecimal::<T>::spec_scale();
    div_tz(
        pdf_coef_raw::<T>() * exp_raw(
            s,
            FixedDecimal::<T>::ln2_raw(),
            pdf_exponent_raw::<T>(x),
            PDF_DEPTH as nat,
        ),
        s,
    )
}

/// Every intermediate step of the density is defined for `x`.
pub open spec fn pdf_defined<T: FixedPrecision>(x: int) -> bool {
    let s = FixedDecimal::<T>::spec_scale();
    let two_pi = 2 * FixedDecimal::<T>::pi_raw();
    let sq = sqrt_raw(s, two_pi, PDF_DEPTH as nat);
    &&& T::PRECISION <= 37
    &&& in_i128(two_pi)
    &&& (two_pi != 0 ==> sqrt_defined(s, two_pi, PDF_DEPTH as nat))
    &&& sq != 0
    &&& in_i128(s * s)
    &&& !(s * s == i128::MIN && sq == -1)
    &&& in_i128(x * x)
    &&& FixedDecimal::<T>::squared_raw(x) != i128::MIN
    &&& exp_defined(
        s,
        FixedDecimal::<T>::ln2_raw(),
        pdf_exponent_raw::<T>(x),
        PDF_DEPTH as nat,
    )
    &&& in_i128(
        pdf_coef_raw::<T>() * exp_raw(
            s,
            FixedDecimal::<T>::ln2_raw(),
            pdf_exponent_raw::<T>(x),
            PDF_DEPTH as nat,
        ),
    )
}

/// Standard normal density at `x`, in scaled arithmetic throughout.
pub fn pdf<T: FixedPrecision>(x: FixedDecimal<T>) -> (r: FixedDecimal<T>)
    requires
        pdf_defined::<T>(x@),
    ensures
        r@ == pdf_raw::<T>(x@),
{
    let ghost s = FixedDecimal::<T>::spec_scale();
    proof {
        crate::arith::lemma_pow10_pos(T::PRECISION as nat);
        crate::arith::lemma_pow10_mono(T::PRECISION as nat, 38);
        crate::arith::lemma_pow10_38();
        lemma_div_tz_bounds(s * s, sqrt_raw(s, 2 * FixedDecimal::<T>::pi_raw(), PDF_DEPTH as nat));
        lemma_div_tz_bounds(x@ * x@, s);
        lemma_div_tz_bounds(-FixedDecimal::<T>::squared_raw(x@), 2);
        lemma_div_tz_bounds(
            pdf_coef_raw::<T>() * exp_raw(
                s,
                FixedDecimal::<T>::ln2_raw(),
                pdf_exponent_raw::<T>(x@),
                PDF_DEPTH as nat,
            ),
            s,
        );
    }
    let two_pi = FixedDecimal::<T>::pi().mul_i128(2);
    let coef = FixedDecimal::<T>::from_i128(1).div(sqrt_newton_raphson::<T, PDF_DEPTH>(two_pi));
    let exponent = x.squared().neg().div_i128(2);
    coef.mul(range_reduce_taylor_exp::<T, PDF_DEPTH>(exponent))
}

/// The direct density as a capability value.
pub struct PDF<T: FixedPrecision> {
    _precision: core::marker::PhantomData<T>,
}

impl<T: FixedPrecision> PDF<T> {
    pub fn new() -> (r: Self) {
        Self { _precision: core::marker::PhantomData }
    }
}

impl<T: FixedPrecision> Function<T> for PDF<T> {
    open spec fn domain(&self, x: FixedDecimal<T>) -> bool {
        pdf_defined::<T>(x@)
    }

    open spec fn value(&self, x: FixedDecimal<T>) -> int {
        pdf_raw::<T>(x@)
    }

    fn evaluate(&self, x: FixedDecimal<T>) -> (r: FixedDecimal<T>) {
        pdf::<T>(x)
    }
}

impl<T: FixedPrecision> TryFunction<T> for PDF<T> {
    open spec fn try_domain(&self, x: FixedDecimal<T>) -> bool {
        pdf_defined::<T>(x@)
    }

    open spec fn try_ok(&self, x: FixedDecimal<T>) -> bool {
        true
    }

    open spec fn try_value(&self, x: FixedDecimal<T>) -> int {
        pdf_raw::<T>(x@)
    }

    fn try_evaluate(&self, x: FixedDecimal<T>) -> (r: Result<FixedDecimal<T>, FixedFastError>) {
        Ok(pdf::<T>(x))
    }
}

/// A density table: samples of the direct routine with linear
/// interpolation, and zero outside the sampled domain.
pub struct PDFLinearInterpLookupTable<T: FixedPrecision> {
    pub lookup: LookupTable<T>,
}

impl<T: FixedPrecision> PDFLinearInterpLookupTable<T> {
    /// The raw value stored for grid point `i`.
    pub open spec fn val(&self, i: int) -> int {
        pdf_raw::<T>(self.lookup.sample(i))
    }

    /// A well-formed lookup backed by exactly the direct routine's values.
    pub open spec fn wf(&self) -> bool {
        &&& self.lookup.wf()
        &&& forall|i: int|
            0 <= i < self.lookup.spec_size() ==> (#[trigger] self.lookup.table@[i])@ == self.val(i)
    }

    /// The interpolation between the two samples bracketing `xv`.
    pub open spec fn lerp_at(&self, xv: int) -> int {
        let i = self.lookup.spec_index(xv);
        lerp_raw(
            FixedDecimal::<T>::spec_scale(),
            xv,
            self.lookup.sample(i),
            self.lookup.sample(i) + self.lookup.step_size@,
            self.val(i),
            self.val(i + 1),
        )
    }

    /// Table/direct agreement at a grid point: the interpolation evaluated
    /// at the grid point itself gives back exactly the stored direct value.
    pub proof fn lemma_exact_at_sample(&self, i: int)
        requires
            self.wf(),
            0 <= i,
            i + 1 <= self.lookup.spec_size(),
        ensures
            self.lerp_at(self.lookup.sample(i)) == self.val(i),
    {
        crate::arith::lemma_pow10_pos(T::PRECISION as nat);
        self.lookup.lemma_index_at_sample(i);
        crate::interpolation::lemma_lerp_at_left_sample(
            FixedDecimal::<T>::spec_scale(),
            self.lookup.sample(i),
            self.lookup.sample(i) + self.lookup.step_size@,
            self.val(i),
            self.val(i + 1),
        );
    }

    /// What evaluation returns: zero outside the sampled domain, the
    /// interpolation inside it.
    pub open spec fn spec_value(&self, xv: int) -> int {
        if xv < self.lookup.start@ || xv > self.lookup.end@ {
            0
        } else {
            self.lerp_at(xv)
        }
    }

    /// The inputs evaluation accepts: anything outside the domain (which
    /// returns zero), or an in-domain value with one more sample after the
    /// bracketing one and in-range interpolation arithmetic.
    pub open spec fn eval_ok(&self, xv: int) -> bool {
        let i = self.lookup.spec_index(xv);
        &&& self.wf()
        &&& (self.lookup.start@ <= xv <= self.lookup.end@ ==> i + 1 < self.lookup.spec_size()
            && lerp_ok(
            FixedDecimal::<T>::spec_scale(),
            xv,
            self.lookup.sample(i),
            self.lookup.sample(i) + self.lookup.step_size@,
            self.val(i),
            self.val(i + 1),
        ))
    }

    /// Builds the table by sampling the direct routine over the grid.
    pub fn new(
        start: FixedDecimal<T>,
        end: FixedDecimal<T>,
        step_size: FixedDecimal<T>,
    ) -> (r: Self)
        requires
            table_params_ok::<T>(start@, end@, step_size@),
            forall|i: int|
                0 <= i < spec_table_size::<T>(start@, end@, step_size@) ==> pdf_defined::<T>(
                    start@ + #[trigger] (step_size@ * i),
                ),
        ensures
            r.wf(),
            r.lookup.start == start,
            r.lookup.end == end,
            r.lookup.step_size == step_size,
    {
        Self {
            lookup: LookupTable::new(
                start,
                end,
                step_size,
                pdf::<T>,
                Ghost(|xv: int| pdf_raw::<T>(xv)),
            ),
        }
    }
}

impl<T: FixedPrecision> Function<T> for PDFLinearInterpLookupTable<T> {
    open spec fn domain(&self, x: FixedDecimal<T>) -> bool {
        self.eval_ok(x@)
    }

    open spec fn value(&self, x: FixedDecimal<T>) -> int {
        self.spec_value(x@)
    }

    fn evaluate(&self, x: FixedDecimal<T>) -> (r: FixedDecimal<T>) {
        if x.to_raw() < self.lookup.start().to_raw() || x.to_raw() > self.lookup.end().to_raw() {
            return FixedDecimal::<T>::zero();
        }
        proof {
            self.lookup.lemma_index_properties(x@);
        }
        let index = self.lookup.get_index(x).expect("Index not found");
        proof {
            let ghost i = self.lookup.spec_index(x@);
            assert(in_i128(self.lookup.step_size@ * (i + 1)) && in_i128(self.lookup.sample(i + 1)));
            assert(self.lookup.step_size@ * (i + 1) == self.lookup.step_size@ * i
                + self.lookup.step_size@) by (nonlinear_arith);
        }
        let lower_value = self.lookup.step_size().mul_i128(index as i128).add(self.lookup.start());
        linear_interpolation(
            x,
            lower_value,
            lower_value.add(self.lookup.step_size()),
            self.lookup.table[index],
            self.lookup.table[index + 1],
        )
    }
}

impl<T: FixedPrecision> TryFunction<T> for PDFLinearInterpLookupTable<T> {
    open spec fn try_domain(&self, x: FixedDecimal<T>) -> bool {
        &&& self.wf()
        &&& (self.lookup.start@ <= x@ < self.lookup.end@ && self.lookup.spec_index(x@) + 1
            < self.lookup.spec_size() ==> self.eval_ok(x@))
    }

    open spec fn try_ok(&self, x: FixedDecimal<T>) -> bool {
        self.lookup.start@ <= x@ < self.lookup.end@ && self.lookup.spec_index(x@) + 1
            < self.lookup.spec_size()
    }

    open spec fn try_value(&self, x: FixedDecimal<T>) -> int {
        self.lerp_at(x@)
    }

    /// The fallible path reports a lookup outside the sampled domain as an
    /// error instead of substituting zero.
    fn try_evaluate(&self, x: FixedDecimal<T>) -> (r: Result<FixedDecimal<T>, FixedFastError>)
        ensures
            !(self.lookup.start@ <= x@ < self.lookup.end@ && self.lookup.spec_index(x@) + 1
                < self.lookup.spec_size()) ==> (r matches Err(e) && e matches
                FixedFastError::OutOfRange(v) && v as int == crate::arith::div_tz(
                x@,
                FixedDecimal::<T>::spec_scale(),
            )),
    {
        proof {
            if self.lookup.start@ <= x@ < self.lookup.end@ {
                self.lookup.lemma_index_properties(x@);
            }
        }
        let index = match self.lookup.get_index(x) {
            Ok(i) => i,
            Err(e) => {
                return Err(e);
            },
        };
        // The density interpolates between two samples, so a bucket without
        // both of them lies outside the sampled grid: an out-of-range error.
        let len = self.lookup.table.len();
        if len == 0 || index >= len - 1 {
            return Err(FixedFastError::OutOfRange(x.to_i128()));
        }
        proof {
            let ghost i = self.lookup.spec_index(x@);
            assert(in_i128(self.lookup.step_size@ * (i + 1)) && in_i128(self.lookup.sample(i + 1)));
            assert(self.lookup.step_size@ * (i + 1) == self.lookup.step_size@ * i
                + self.lookup.step_size@) by (nonlinear_arith);
        }
        let lower_value = self.lookup.step_size().mul_i128(index as i128).add(self.lookup.start());
        Ok(
            linear_interpolation(
                x,
                lower_value,
                lower_value.add(self.lookup.step_size()),
                self.lookup.table[index],
                self.lookup.table[index + 1],
            ),
        )
    }
}

} // verus!
