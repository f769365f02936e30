//! Standard normal cumulative distribution.
//!
//! Two logistic-shaped approximations, both using the symmetry
//! `CDF(-x) = 1 - CDF(x)` so that only `x >= 0` is approximated directly:
//! a cheap rational form with two coefficients, and a higher-accuracy
//! 13-coefficient polynomial form, plus a sampled table over the latter.

use vstd::prelude::*;

use crate::arith::{div_tz, in_i128, lemma_div_tz_bounds, lemma_mul_le, lemma_pow10_mono,
    lemma_pow10_pos, pow10};
use crate::error::FixedFastError;
use crate::exp::{exp_defined, exp_raw, range_reduce_taylor_exp};
use crate::fixed_decimal::{spec_scale_raw, FixedDecimal, FixedPrecision};
use crate::function::{Function, TryFunction};
use crate::interpolation::{lerp_ok, lerp_raw, linear_interpolation};
use crate::lookup_table::{spec_table_size, table_params_ok, LookupTable};

verus! {

broadcast use crate::fixed_decimal::lemma_view_in_range;

/// The series depth both cumulative forms use for their exponential.
pub const CDF_EXP_ORDER: u32 = 30;

/// The polynomial form's coefficients, scaled by `10^17`.
pub open spec fn cdf_coeff_1e17(i: int) -> int {
    if i == 0 {
        -436953479
    } else if i == 1 {
        159576962000000000
    } else if i == 2 {
        -955404601000
    } else if i == 3 {
        7274169990000000
    } else if i == 4 {
        -26565023900000
    } else if i == 5 {
        50857094000000
    } else if i == 6 {
        -79653385500000
    } else if i == 7 {
        59778488700000
    } else if i == 8 {
        -40077230600000
    } else if i == 9 {
        14965658000000
    } else if i == 10 {
        -2988796070000
    } else if i == 11 {
        306494352000
    } else {
        -12783404900
    }
}

/// The polynomial form's raw coefficients at the working precision.
pub open spec fn cdf_coeffs<T: FixedPrecision>() -> Seq<int> {
    Seq::new(13, |i: int| spec_scale_raw(cdf_coeff_1e17(i), T::PRECISION - 17))
}

/// Rescales a coefficient given at 17 fractional digits to the working
/// precision, truncating toward zero.
fn coeff_from_1e17<T: FixedPrecision>(c: i128) -> (r: FixedDecimal<T>)
    requires
        FixedDecimal::<T>::precision_ok(),
        -170141000000000000 <= c <= 170141000000000000,
    ensures
        r@ == spec_scale_raw(c as int, T::PRECISION - 17),
{
    proof {
        if T::PRECISION > 17 {
            let si = (T::PRECISION - 17) as nat;
            lemma_pow10_pos(si);
            lemma_pow10_mono(si, 21);
            assert(pow10(21) == 1000000000000000000000) by {
                reveal_with_fuel(pow10, 22);
            };
            assert(in_i128(c * pow10(si))) by (nonlinear_arith)
                requires
                    -170141000000000000 <= c <= 170141000000000000,
                    0 < pow10(si) <= 1000000000000000000000,
            ;
        }
    }
    FixedDecimal::<T>::from_raw(crate::fixed_decimal::scale_raw(c, T::PRECISION as i32 - 17))
}

/// What the polynomial-logistic form computes on a raw value: the mirror
/// identity below zero, otherwise the polynomial fed through the logistic
/// `1 / (1 + e^-f)`.
pub open spec fn topher_cdf_raw<T: FixedPrecision>(x: int, cs: Seq<int>) -> int
    decreases (if x < 0 { 1int } else { 0int }),
{
    if x < 0 {
        FixedDecimal::<T>::spec_scale() - topher_cdf_raw::<T>(-x, cs)
    } else {
        let s = FixedDecimal::<T>::spec_scale();
        let f = FixedDecimal::<T>::poly_acc_raw(x, cs, 12);
        let e = exp_raw(s, FixedDecimal::<T>::ln2_raw(), -f, CDF_EXP_ORDER as nat);
        div_tz(s * s, s + e)
    }
}

/// Every intermediate step of the polynomial-logistic form is defined.
pub open spec fn topher_defined<T: FixedPrecision>(x: int, cs: Seq<int>) -> bool
    decreases (if x < 0 { 1int } else { 0int }),
{
    if x < 0 {
        &&& x != i128::MIN
        &&& topher_defined::<T>(-x, cs)
        &&& in_i128(FixedDecimal::<T>::spec_scale() - topher_cdf_raw::<T>(-x, cs))
    } else {
        let s = FixedDecimal::<T>::spec_scale();
        let f = FixedDecimal::<T>::poly_acc_raw(x, cs, 12);
        let e = exp_raw(s, FixedDecimal::<T>::ln2_raw(), -f, CDF_EXP_ORDER as nat);
        &&& FixedDecimal::<T>::precision_ok()
        &&& cs.len() == 13
        &&& FixedDecimal::<T>::poly_ok(x, cs, 12)
        &&& in_i128(f)
        &&& f != i128::MIN
        &&& exp_defined(s, FixedDecimal::<T>::ln2_raw(), -f, CDF_EXP_ORDER as nat)
        &&& in_i128(s * s)
        &&& s + e != 0
        &&& in_i128(s + e)
        &&& !(s * s == i128::MIN && s + e == -1)
    }
}

/// The polynomial-logistic core: a 13-term polynomial fed through
/// `1 / (1 + e^-f)`, mirrored for negative inputs.
pub fn topher_cdf<T: FixedPrecision>(
    x: FixedDecimal<T>,
    coefficients: &[FixedDecimal<T>; 13],
) -> (r: FixedDecimal<T>)
    requires
        topher_defined::<T>(x@, FixedDecimal::<T>::raws(coefficients@)),
    ensures
        r@ == topher_cdf_raw::<T>(x@, FixedDecimal::<T>::raws(coefficients@)),
    decreases (if x@ < 0 { 1int } else { 0int }),
{
    if x.to_raw() < 0 {
        proof {
            assert(topher_defined::<T>(-x@, FixedDecimal::<T>::raws(coefficients@)));
            assert(FixedDecimal::<T>::precision_ok());
        }
        return FixedDecimal::<T>::one().sub(topher_cdf(x.neg(), coefficients));
    }
    let ghost s = FixedDecimal::<T>::spec_scale();
    let ghost cs = FixedDecimal::<T>::raws(coefficients@);
    proof {
        lemma_pow10_pos(T::PRECISION as nat);
        lemma_pow10_mono(T::PRECISION as nat, 38);
        crate::arith::lemma_pow10_38();
        lemma_mul_le(s, 0, s);
        lemma_div_tz_bounds(
            s * s,
            s + exp_raw(
                s,
                FixedDecimal::<T>::ln2_raw(),
                -FixedDecimal::<T>::poly_acc_raw(x@, cs, 12),
                CDF_EXP_ORDER as nat,
            ),
        );
    }
    let f = x.polynomial(vstd::array::array_as_slice(coefficients));
    let denominator_exponent = range_reduce_taylor_exp::<T, CDF_EXP_ORDER>(f.neg());
    let one = FixedDecimal::<T>::one();
    one.div(one.add(denominator_exponent))
}

/// What the polynomial-logistic approximation returns on a raw value:
/// exactly zero below `-6`, exactly one above `6`, the core in between.
pub open spec fn cdf_custom_value<T: FixedPrecision>(xv: int) -> int {
    let s = FixedDecimal::<T>::spec_scale();
    if xv < -6 * s {
        0
    } else if xv > 6 * s {
        s
    } else {
        topher_cdf_raw::<T>(xv, cdf_coeffs::<T>())
    }
}

/// The polynomial-logistic approximation as a capability value, clamping
/// to exactly zero below `-6` and one above `6`.
pub struct CDFCustomAprox<T: FixedPrecision> {
    pub _precision: core::marker::PhantomData<T>,
    pub coefficients: [FixedDecimal<T>; 13],
}

impl<T: FixedPrecision> CDFCustomAprox<T> {
    /// The coefficients hold exactly the fixed 13-term table.
    pub open spec fn wf(&self) -> bool {
        &&& FixedDecimal::<T>::precision_ok()
        &&& FixedDecimal::<T>::raws(self.coefficients@) =~= cdf_coeffs::<T>()
    }

    /// What evaluation returns: the clamps outside `[-6, 6]`, the
    /// polynomial-logistic core inside.
    pub open spec fn spec_value(&self, xv: int) -> int {
        cdf_custom_value::<T>(xv)
    }

    /// The inputs evaluation accepts.
    pub open spec fn eval_ok(&self, xv: int) -> bool {
        let s = FixedDecimal::<T>::spec_scale();
        &&& self.wf()
        &&& in_i128(6 * s)
        &&& (-6 * s <= xv <= 6 * s ==> topher_defined::<T>(xv, cdf_coeffs::<T>()))
    }

    pub fn new() -> (r: Self)
        requires
            FixedDecimal::<T>::precision_ok(),
        ensures
            r.wf(),
    {
        let coefficients = [
            coeff_from_1e17::<T>(-436953479),
            coeff_from_1e17::<T>(159576962000000000),
            coeff_from_1e17::<T>(-955404601000),
            coeff_from_1e17::<T>(7274169990000000),
            coeff_from_1e17::<T>(-26565023900000),
            coeff_from_1e17::<T>(50857094000000),
            coeff_from_1e17::<T>(-79653385500000),
            coeff_from_1e17::<T>(59778488700000),
            coeff_from_1e17::<T>(-40077230600000),
            coeff_from_1e17::<T>(14965658000000),
            coeff_from_1e17::<T>(-2988796070000),
            coeff_from_1e17::<T>(306494352000),
            coeff_from_1e17::<T>(-12783404900),
        ];
        let result = Self { _precision: core::marker::PhantomData, coefficients };
        proof {
            assert(FixedDecimal::<T>::raws(result.coefficients@) =~= cdf_coeffs::<T>());
        }
        result
    }
}

impl<T: FixedPrecision> Function<T> for CDFCustomAprox<T> {
    open spec fn domain(&self, x: FixedDecimal<T>) -> bool {
        self.eval_ok(x@)
    }

    open spec fn value(&self, x: FixedDecimal<T>) -> int {
        self.spec_value(x@)
    }

    fn evaluate(&self, x: FixedDecimal<T>) -> (r: FixedDecimal<T>) {
        proof {
            lemma_pow10_pos(T::PRECISION as nat);
        }
        let six_scaled = FixedDecimal::<T>::from_i128(6);
        if x.to_raw() < -six_scaled.to_raw() {
            return FixedDecimal::<T>::zero();
        }
        if x.to_raw() > six_scaled.to_raw() {
            return FixedDecimal::<T>::one();
        }
        topher_cdf(x, &self.coefficients)
    }
}

impl<T: FixedPrecision> TryFunction<T> for CDFCustomAprox<T> {
    open spec fn try_domain(&self, x: FixedDecimal<T>) -> bool {
        self.eval_ok(x@)
    }

    open spec fn try_ok(&self, x: FixedDecimal<T>) -> bool {
        true
    }

    open spec fn try_value(&self, x: FixedDecimal<T>) -> int {
        self.spec_value(x@)
    }

    fn try_evaluate(&self, x: FixedDecimal<T>) -> (r: Result<FixedDecimal<T>, FixedFastError>) {
        Ok(self.evaluate(x))
    }
}

/// A cumulative table: the polynomial form sampled over `[0, end)`, with
/// the mirror identity for negative inputs and saturation to one at and
/// above `end`.
pub struct CDFLinearInterpLookupTable<T: FixedPrecision> {
    pub lookup: LookupTable<T>,
}

impl<T: FixedPrecision> CDFLinearInterpLookupTable<T> {
    /// The raw value stored for grid point `i`.
    pub open spec fn val(&self, i: int) -> int {
        cdf_custom_value::<T>(self.lookup.sample(i))
    }

    /// A well-formed lookup over `[0, end)` backed by the polynomial
    /// form's values.
    pub open spec fn wf(&self) -> bool {
        &&& self.lookup.wf()
        &&& self.lookup.start@ == 0
        &&& forall|i: int|
            0 <= i < self.lookup.spec_size() ==> (#[trigger] self.lookup.table@[i])@ == self.val(i)
    }

    /// The interpolation between the two samples bracketing `xv`.
    pub open spec fn lerp_at(&self, xv: int) -> int {
        let i = self.lookup.spec_index(xv);
        lerp_raw(
            FixedDecimal::<T>::spec_scale(),
            xv,
            self.lookup.sample(i),
            self.lookup.sample(i) + self.lookup.step_size@,
            self.val(i),
            self.val(i + 1),
        )
    }

    /// Table/direct agreement at a grid point: the interpolation evaluated
    /// at the grid point itself gives back exactly the stored direct value.
    pub proof fn lemma_exact_at_sample(&self, i: int)
        requires
            self.wf(),
            0 <= i,
            i + 1 <= self.lookup.spec_size(),
        ensures
            self.lerp_at(self.lookup.sample(i)) == self.val(i),
    {
        crate::arith::lemma_pow10_pos(T::PRECISION as nat);
        self.lookup.lemma_index_at_sample(i);
        crate::interpolation::lemma_lerp_at_left_sample(
            FixedDecimal::<T>::spec_scale(),
            self.lookup.sample(i),
            self.lookup.sample(i) + self.lookup.step_size@,
            self.val(i),
            self.val(i + 1),
        );
    }

    /// What evaluation returns: the mirror identity below zero, saturation
    /// to one at and above `end`, the bracketing sample in the last bucket,
    /// and the interpolation elsewhere.
    pub open spec fn spec_value(&self, xv: int) -> int
        decreases (if xv < 0 { 1int } else { 0int }),
    {
        let s = FixedDecimal::<T>::spec_scale();
        if xv < 0 {
            s - self.spec_value(-xv)
        } else if xv >= self.lookup.end@ {
            s
        } else if self.lookup.spec_index(xv) + 1 >= self.lookup.spec_size() {
            self.val(self.lookup.spec_index(xv))
        } else {
            self.lerp_at(xv)
        }
    }

    /// The inputs evaluation accepts.
    pub open spec fn eval_ok(&self, xv: int) -> bool
        decreases (if xv < 0 { 1int } else { 0int }),
    {
        let s = FixedDecimal::<T>::spec_scale();
        let i = self.lookup.spec_index(xv);
        if xv < 0 {
            &&& xv != i128::MIN
            &&& self.eval_ok(-xv)
            &&& in_i128(s - self.spec_value(-xv))
        } else {
            &&& self.wf()
            &&& (xv < self.lookup.end@ ==> i < self.lookup.spec_size())
            &&& (xv < self.lookup.end@ && i + 1 < self.lookup.spec_size() ==> lerp_ok(
                s,
                xv,
                self.lookup.sample(i),
                self.lookup.sample(i) + self.lookup.step_size@,
                self.val(i),
                self.val(i + 1),
            ))
        }
    }

    /// Builds the table by sampling the polynomial form over `[0, end)`.
    pub fn new(end: FixedDecimal<T>, step_size: FixedDecimal<T>) -> (r: Self)
        requires
            table_params_ok::<T>(0, end@, step_size@),
            in_i128(6 * FixedDecimal::<T>::spec_scale()),
            forall|i: int|
                0 <= i < spec_table_size::<T>(0, end@, step_size@) ==> (#[trigger] (step_size@ * i)
                    <= 6 * FixedDecimal::<T>::spec_scale() ==> topher_defined::<T>(
                    step_size@ * i,
                    cdf_coeffs::<T>(),
                )),
        ensures
            r.wf(),
            r.lookup.end == end,
            r.lookup.step_size == step_size,
    {
        let custom_aprox = CDFCustomAprox::<T>::new();
        let zero = FixedDecimal::<T>::zero();
        let f = |xv: FixedDecimal<T>| -> (y: FixedDecimal<T>)
            requires
                custom_aprox.eval_ok(xv@),
            ensures
                y@ == cdf_custom_value::<T>(xv@),
            { custom_aprox.evaluate(xv) };
        proof {
            lemma_pow10_pos(T::PRECISION as nat);
            assert forall|i: int, v: FixedDecimal<T>|
                #![trigger call_requires(f, (v,)), step_size@ * i]
                (0 <= i < spec_table_size::<T>(0, end@, step_size@) && v@ == 0 + step_size@
                    * i) implies call_requires(f, (v,)) by {
                assert(step_size@ * i >= 0) by (nonlinear_arith)
                    requires
                        step_size@ > 0,
                        i >= 0,
                ;
            }
        }
        let lookup = LookupTable::new(
            zero,
            end,
            step_size,
            f,
            Ghost(|xv: int| cdf_custom_value::<T>(xv)),
        );
        Self { lookup }
    }
}

impl<T: FixedPrecision> Function<T> for CDFLinearInterpLookupTable<T> {
    open spec fn domain(&self, x: FixedDecimal<T>) -> bool {
        self.eval_ok(x@)
    }

    open spec fn value(&self, x: FixedDecimal<T>) -> int {
        self.spec_value(x@)
    }

    fn evaluate(&self, x: FixedDecimal<T>) -> (r: FixedDecimal<T>) {
        self.eval_clamped(x)
    }
}

impl<T: FixedPrecision> TryFunction<T> for CDFLinearInterpLookupTable<T> {
    open spec fn try_domain(&self, x: FixedDecimal<T>) -> bool {
        self.eval_ok(x@)
    }

    open spec fn try_ok(&self, x: FixedDecimal<T>) -> bool {
        true
    }

    open spec fn try_value(&self, x: FixedDecimal<T>) -> int {
        self.spec_value(x@)
    }

    fn try_evaluate(&self, x: FixedDecimal<T>) -> (r: Result<FixedDecimal<T>, FixedFastError>) {
        Ok(self.eval_clamped(x))
    }
}

impl<T: FixedPrecision> CDFLinearInterpLookupTable<T> {
    /// The shared evaluation path of the strict and the fallible form: the
    /// mirror identity for negative inputs, saturation to one at and above
    /// `end`, then lookup and interpolation.
    fn eval_clamped(&self, x: FixedDecimal<T>) -> (r: FixedDecimal<T>)
        requires
            self.eval_ok(x@),
        ensures
            r@ == self.spec_value(x@),
        decreases (if x@ < 0 { 1int } else { 0int }),
    {
        if x.to_raw() < 0 {
            proof {
                assert(self.eval_ok(-x@));
                assert(self.wf());
            }
            return FixedDecimal::<T>::one().sub(self.eval_clamped(x.neg()));
        }
        proof {
            lemma_pow10_pos(T::PRECISION as nat);
        }
        if x.to_raw() >= self.lookup.end().to_raw() {
            return FixedDecimal::<T>::one();
        }
        proof {
            self.lookup.lemma_index_properties(x@);
        }
        let index = self.lookup.get_index(x).expect("Index not found");
        if index + 1 >= self.lookup.table.len() {
            return self.lookup.table[index];
        }
        proof {
            let ghost i = self.lookup.spec_index(x@);
            assert(in_i128(self.lookup.step_size@ * (i + 1)) && in_i128(self.lookup.sample(i + 1)));
            assert(self.lookup.step_size@ * (i + 1) == self.lookup.step_size@ * i
                + self.lookup.step_size@) by (nonlinear_arith);
        }
        let lower_value = self.lookup.step_size().mul_i128(index as i128).add(self.lookup.start());
        linear_interpolation(
            x,
            lower_value,
            lower_value.add(self.lookup.step_size()),
            self.lookup.table[index],
            self.lookup.table[index + 1],
        )
    }
}

/// The rational form's two coefficients, scaled by `10^17`.
pub const BOWLING_A_1E17: i128 = 159760000000000000;

pub const BOWLING_B_1E17: i128 = 7056000000000000;

/// The rational form's polynomial `a*x + b*x^3` in scaled arithmetic.
pub open spec fn bowling_g<T: FixedPrecision>(x: int) -> int {
    let s = FixedDecimal::<T>::spec_scale();
    let a = spec_scale_raw(BOWLING_A_1E17 as int, T::PRECISION - 17);
    let b = spec_scale_raw(BOWLING_B_1E17 as int, T::PRECISION - 17);
    FixedDecimal::<T>::mul_raw(a, x) + div_tz(b * FixedDecimal::<T>::cubed_raw(x), s)
}

/// What the rational-logistic form computes on a raw value: the mirror
/// identity below zero, otherwise `1 / (1 + e^-(a*x + b*x^3))`.
pub open spec fn bowling_cdf_raw<T: FixedPrecision>(x: int) -> int
    decreases (if x < 0 { 1int } else { 0int }),
{
    let s = FixedDecimal::<T>::spec_scale();
    if x < 0 {
        s - bowling_cdf_raw::<T>(-x)
    } else {
        let e = exp_raw(s, FixedDecimal::<T>::ln2_raw(), -bowling_g::<T>(x), CDF_EXP_ORDER as nat);
        div_tz(s * s, s + e)
    }
}

/// Every intermediate step of the rational-logistic form is defined.
pub open spec fn bowling_defined<T: FixedPrecision>(x: int) -> bool
    decreases (if x < 0 { 1int } else { 0int }),
{
    let s = FixedDecimal::<T>::spec_scale();
    if x < 0 {
        &&& x != i128::MIN
        &&& bowling_defined::<T>(-x)
        &&& in_i128(s - bowling_cdf_raw::<T>(-x))
    } else {
        let a = spec_scale_raw(BOWLING_A_1E17 as int, T::PRECISION - 17);
        let b = spec_scale_raw(BOWLING_B_1E17 as int, T::PRECISION - 17);
        let g = bowling_g::<T>(x);
        let e = exp_raw(s, FixedDecimal::<T>::ln2_raw(), -g, CDF_EXP_ORDER as nat);
        &&& FixedDecimal::<T>::precision_ok()
        &&& in_i128(a * x)
        &&& in_i128(x * x)
        &&& in_i128(FixedDecimal::<T>::squared_raw(x) * x)
        &&& in_i128(b * FixedDecimal::<T>::cubed_raw(x))
        &&& in_i128(g)
        &&& g != i128::MIN
        &&& exp_defined(s, FixedDecimal::<T>::ln2_raw(), -g, CDF_EXP_ORDER as nat)
        &&& in_i128(s * s)
        &&& s + e != 0
        &&& in_i128(s + e)
        &&& !(s * s == i128::MIN && s + e == -1)
    }
}

/// The rational-logistic approximation as a capability value: cheaper than
/// the polynomial form, with lower accuracy.
pub struct CDFBowlingRational<T: FixedPrecision> {
    pub _precision: core::marker::PhantomData<T>,
}

impl<T: FixedPrecision> CDFBowlingRational<T> {
    pub fn new() -> (r: Self) {
        Self { _precision: core::marker::PhantomData }
    }

    /// The shared evaluation path of the strict and the fallible form.
    fn eval_rational(&self, x: FixedDecimal<T>) -> (r: FixedDecimal<T>)
        requires
            bowling_defined::<T>(x@),
        ensures
            r@ == bowling_cdf_raw::<T>(x@),
        decreases (if x@ < 0 { 1int } else { 0int }),
    {
        if x.to_raw() < 0 {
            proof {
                assert(bowling_defined::<T>(-x@));
                assert(FixedDecimal::<T>::precision_ok());
            }
            return FixedDecimal::<T>::one().sub(self.eval_rational(x.neg()));
        }
        let ghost s = FixedDecimal::<T>::spec_scale();
        proof {
            lemma_pow10_pos(T::PRECISION as nat);
            lemma_pow10_mono(T::PRECISION as nat, 38);
            crate::arith::lemma_pow10_38();
            lemma_mul_le(s, 0, s);
            lemma_div_tz_bounds(
                spec_scale_raw(BOWLING_B_1E17 as int, T::PRECISION - 17)
                    * FixedDecimal::<T>::cubed_raw(x@),
                s,
            );
            lemma_div_tz_bounds(
                s * s,
                s + exp_raw(
                    s,
                    FixedDecimal::<T>::ln2_raw(),
                    -bowling_g::<T>(x@),
                    CDF_EXP_ORDER as nat,
                ),
            );
        }
        let a = coeff_from_1e17::<T>(BOWLING_A_1E17);
        let b = coeff_from_1e17::<T>(BOWLING_B_1E17);
        let g = a.mul(x).add(b.mul(x.cubed()));
        let denominator_exponent = range_reduce_taylor_exp::<T, CDF_EXP_ORDER>(g.neg());
        let one = FixedDecimal::<T>::one();
        one.div(one.add(denominator_exponent))
    }
}

impl<T: FixedPrecision> Function<T> for CDFBowlingRational<T> {
    open spec fn domain(&self, x: FixedDecimal<T>) -> bool {
        bowling_defined::<T>(x@)
    }

    open spec fn value(&self, x: FixedDecimal<T>) -> int {
        bowling_cdf_raw::<T>(x@)
    }

    fn evaluate(&self, x: FixedDecimal<T>) -> (r: FixedDecimal<T>) {
        self.eval_rational(x)
    }
}

impl<T: FixedPrecision> TryFunction<T> for CDFBowlingRational<T> {
    open spec fn try_domain(&self, x: FixedDecimal<T>) -> bool {
        bowling_defined::<T>(x@)
    }

    open spec fn try_ok(&self, x: FixedDecimal<T>) -> bool {
        true
    }

    open spec fn try_value(&self, x: FixedDecimal<T>) -> int {
        bowling_cdf_raw::<T>(x@)
    }

    fn try_evaluate(&self, x: FixedDecimal<T>) -> (r: Result<FixedDecimal<T>, FixedFastError>) {
        Ok(self.eval_rational(x))
    }
}

/// Symmetry of the polynomial-logistic core: away from zero, the values at
/// a raw value and its negation sum to exactly one.
pub proof fn lemma_topher_symmetry<T: FixedPrecision>(x: int, cs: Seq<int>)
    requires
        x != 0,
    ensures
        topher_cdf_raw::<T>(-x, cs) + topher_cdf_raw::<T>(x, cs) == FixedDecimal::<T>::spec_scale(),
{
    if x > 0 {
        assert(topher_cdf_raw::<T>(-x, cs) == FixedDecimal::<T>::spec_scale() - topher_cdf_raw::<T>(
            x,
            cs,
        ));
    } else {
        assert(topher_cdf_raw::<T>(x, cs) == FixedDecimal::<T>::spec_scale() - topher_cdf_raw::<T>(
            -x,
            cs,
        ));
    }
}

/// Fixed point: the rational form's cumulative value at zero is exactly
/// one half, by construction of the logistic.
pub proof fn lemma_bowling_at_zero<T: FixedPrecision>()
    requires
        1 <= T::PRECISION <= 38,
    ensures
        2 * bowling_cdf_raw::<T>(0) == FixedDecimal::<T>::spec_scale(),
{
    let s = FixedDecimal::<T>::spec_scale();
    lemma_pow10_pos(T::PRECISION as nat);
    lemma_pow10_pos((T::PRECISION - 1) as nat);
    let a = spec_scale_raw(BOWLING_A_1E17 as int, T::PRECISION - 17);
    let b = spec_scale_raw(BOWLING_B_1E17 as int, T::PRECISION - 17);
    assert(a * 0 == 0) by (nonlinear_arith);
    crate::arith::lemma_div_tz_zero(s);
    assert(FixedDecimal::<T>::mul_raw(a, 0) == 0);
    assert(0 * 0 == 0) by (nonlinear_arith);
    assert(FixedDecimal::<T>::squared_raw(0) == 0);
    assert(FixedDecimal::<T>::squared_raw(0) * 0 == 0) by (nonlinear_arith);
    assert(FixedDecimal::<T>::cubed_raw(0) == 0);
    assert(b * 0 == 0) by (nonlinear_arith);
    assert(bowling_g::<T>(0) == 0);
    FixedDecimal::<T>::lemma_ln2_raw_pos();
    crate::exp::lemma_exp_of_zero(s, FixedDecimal::<T>::ln2_raw(), CDF_EXP_ORDER as nat);
    let h = 5 * pow10((T::PRECISION - 1) as nat);
    assert(s == 2 * h);
    assert(h * (s + s) == s * s) by (nonlinear_arith)
        requires
            s == 2 * h,
    ;
    crate::arith::lemma_div_tz_exact(h, s + s);
    assert(bowling_cdf_raw::<T>(0) == h);
}

/// Symmetry of the rational form: for every raw value, the values at the
/// value and its negation sum to exactly one.
pub proof fn lemma_bowling_symmetry<T: FixedPrecision>(x: int)
    requires
        1 <= T::PRECISION <= 38,
    ensures
        bowling_cdf_raw::<T>(-x) + bowling_cdf_raw::<T>(x) == FixedDecimal::<T>::spec_scale(),
{
    if x > 0 {
        assert(bowling_cdf_raw::<T>(-x) == FixedDecimal::<T>::spec_scale() - bowling_cdf_raw::<T>(
            x,
        ));
    } else if x < 0 {
        assert(bowling_cdf_raw::<T>(x) == FixedDecimal::<T>::spec_scale() - bowling_cdf_raw::<T>(
            -x,
        ));
    } else {
        lemma_bowling_at_zero::<T>();
    }
}

} // verus!
