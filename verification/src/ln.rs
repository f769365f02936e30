//! Natural logarithm via range reduction and the arctanh series.
//!
//! The input is halved or doubled into `[1, 2]`, counting the net shifts;
//! `ln x = 2 * arctanh((x-1)/(x+1))` is summed to a fixed depth; the shifts
//! come back as a multiple of `ln 2`.

use vstd::prelude::*;

use crate::arith::{div_tz, in_i128, lemma_div_tz_bounds};
use crate::error::FixedFastError;
use crate::fixed_decimal::{FixedDecimal, FixedPrecision};
use crate::function::{Function, TryFunction};
use crate::interpolation::{lerp_ok, lerp_raw, linear_interpolation};
use crate::lookup_table::{spec_table_size, table_params_ok, LookupTable};

verus! {

use vstd::arithmetic::power2::pow2;

broadcast use crate::fixed_decimal::lemma_view_in_range;

/// The halving phase of the range reduction: while the value exceeds two,
/// halve it (truncating) and count one shift.  Returns the reduced raw
/// value and the shift count.
pub open spec fn ln_shrink(s: int, x: int) -> (int, int)
    decreases x,
        when x >= 1 && s >= 1
{
    if x > 2 * s {
        let p = ln_shrink(s, x / 2);
        (p.0, p.1 + 1)
    } else {
        (x, 0)
    }
}

/// The doubling phase: while the value is below one, double it and count a
/// negative shift.
pub open spec fn ln_grow(s: int, x: int) -> (int, int)
    decreases 2 * s - x,
        when 1 <= x <= 2 * s && s >= 1
{
    if x < s {
        let p = ln_grow(s, 2 * x);
        (p.0, p.1 - 1)
    } else {
        (x, 0)
    }
}

/// The full normalization into `[1, 2]`: halvings first, doublings second,
/// with the net shift count.
pub open spec fn ln_norm(s: int, x: int) -> (int, int) {
    let p = ln_shrink(s, x);
    let q = ln_grow(s, p.0);
    (q.0, p.1 + q.1)
}

/// The series argument `t = (a - 1) / (a + 1)` in scaled arithmetic.
pub open spec fn ln_t(s: int, a: int) -> int {
    div_tz((a - s) * s, a + s)
}

/// The running multiplier `t^2`, one scaled multiplication.
pub open spec fn ln_t2(s: int, a: int) -> int {
    div_tz(ln_t(s, a) * ln_t(s, a), s)
}

/// The `n`-th arctanh series term: `t` itself first, then one scaled
/// multiplication by `t^2` and one integer division by `2n + 1` per step.
pub open spec fn ln_term(s: int, t: int, t2: int, n: nat) -> int
    decreases n,
{
    if n == 0 {
        t
    } else {
        div_tz(div_tz(ln_term(s, t, t2, (n - 1) as nat) * t2, s), 2 * (n as int) + 1)
    }
}

/// The partial arctanh sum through term `n`.
pub open spec fn ln_series(s: int, t: int, t2: int, n: nat) -> int
    decreases n,
{
    if n == 0 {
        t
    } else {
        ln_series(s, t, t2, (n - 1) as nat) + ln_term(s, t, t2, n)
    }
}

/// The index of the last series term a depth-`depth` evaluation sums.
pub open spec fn ln_series_len(depth: nat) -> nat {
    if depth == 0 {
        0
    } else {
        (depth - 1) as nat
    }
}

/// What the logarithm routine returns on the raw value `x`:
/// `2 * arctanh_sum + shift * ln 2`.
pub open spec fn ln_raw(s: int, ln2: int, x: int, depth: nat) -> int {
    let a = ln_norm(s, x).0;
    let sh = ln_norm(s, x).1;
    let ser = ln_series(s, ln_t(s, a), ln_t2(s, a), ln_series_len(depth));
    ser * 2 + ln2 * sh
}

/// Every intermediate step of the logarithm is defined for `x`: the input
/// is positive, the normalization arithmetic fits, and all series
/// arithmetic stays within `i128`.
pub open spec fn ln_defined(s: int, ln2: int, x: int, depth: nat) -> bool {
    let a = ln_norm(s, x).0;
    let sh = ln_norm(s, x).1;
    let t = ln_t(s, a);
    let t2v = ln_t2(s, a);
    let ser = ln_series(s, t, t2v, ln_series_len(depth));
    &&& s >= 1
    &&& x >= 1
    &&& in_i128(2 * s)
    &&& in_i128(a + s)
    &&& in_i128((a - s) * s)
    &&& in_i128(t * t)
    &&& (forall|n: nat|
        1 <= n <= ln_series_len(depth) ==> in_i128(
            #[trigger] ln_term(s, t, t2v, (n - 1) as nat) * t2v,
        ) && in_i128(ln_series(s, t, t2v, (n - 1) as nat) + ln_term(s, t, t2v, n)))
    &&& in_i128(ser * 2)
    &&& in_i128(ln2 * sh)
    &&& in_i128(ser * 2 + ln2 * sh)
}

/// `2^127` is one past `i128::MAX`, so every positive `i128` sits below it.
proof fn lemma_pow2_127()
    ensures
        pow2(127) == 0x80000000000000000000000000000000,
{
    vstd::arithmetic::power2::lemma2_to64();
    vstd::arithmetic::power2::lemma2_to64_rest();
    vstd::arithmetic::power2::lemma_pow2_adds(64, 63);
}

/// Bounds on the halving phase: it lands in `[1, 2s]` (strictly above `s`
/// when it ran at all), changes nothing when the input is already small,
/// and never counts more than 127 shifts.
proof fn lemma_ln_shrink_bounds(s: int, x: int, n: nat)
    requires
        s >= 1,
        1 <= x,
        x < pow2(n),
    ensures
        1 <= ln_shrink(s, x).0,
        x > 2 * s ==> s <= ln_shrink(s, x).0 <= 2 * s,
        x <= 2 * s ==> ln_shrink(s, x) == (x, 0int),
        0 <= ln_shrink(s, x).1 <= n,
    decreases x,
{
    vstd::arithmetic::power2::lemma_pow2_pos(n);
    if x > 2 * s {
        assert(n >= 2) by {
            vstd::arithmetic::power2::lemma2_to64();
            if n < 2 {
                vstd::arithmetic::power2::lemma_pow2_strictly_increases(n, 2);
            }
        };
        vstd::arithmetic::power2::lemma_pow2_unfold(n);
        let h = pow2((n - 1) as nat) as int;
        assert(x / 2 < h) by {
            vstd::arithmetic::div_mod::lemma_div_is_ordered(x, 2 * h - 1, 2);
            vstd::arithmetic::div_mod::lemma_fundamental_div_mod_converse(2 * h - 1, 2, h - 1, 1);
        };
        lemma_ln_shrink_bounds(s, x / 2, (n - 1) as nat);
    }
}

/// Bounds on the doubling phase: it lands in `[s, 2s]`, changes nothing
/// when the input is already at least one, and never counts more than `n`
/// doublings when `x * 2^n` already reaches `s`.
proof fn lemma_ln_grow_bounds(s: int, x: int, n: nat)
    requires
        s >= 1,
        1 <= x <= 2 * s,
        s <= x * (pow2(n) as int),
    ensures
        s <= ln_grow(s, x).0 <= 2 * s,
        x >= s ==> ln_grow(s, x) == (x, 0int),
        -(n as int) <= ln_grow(s, x).1 <= 0,
    decreases n,
{
    if x < s {
        assert(n >= 1) by {
            vstd::arithmetic::power2::lemma2_to64();
            if n == 0 {
                assert(x * 1 == x) by (nonlinear_arith);
            }
        };
        vstd::arithmetic::power2::lemma_pow2_unfold(n);
        assert(x * (pow2(n) as int) == (2 * x) * (pow2((n - 1) as nat) as int))
            by (nonlinear_arith)
            requires
                pow2(n) == 2 * pow2((n - 1) as nat),
        ;
        lemma_ln_grow_bounds(s, 2 * x, (n - 1) as nat);
    } else {
        vstd::arithmetic::power2::lemma_pow2_pos(n);
    }
}

/// The normalization of any representable positive value lands in
/// `[s, 2s]` with a net shift count in `[-127, 127]`.
pub proof fn lemma_ln_norm_bounds(s: int, x: int)
    requires
        1 <= s <= i128::MAX,
        1 <= x <= i128::MAX,
    ensures
        s <= ln_norm(s, x).0 <= 2 * s,
        -127 <= ln_norm(s, x).1 <= 127,
        x <= 2 * s ==> ln_shrink(s, x) == (x, 0int),
{
    lemma_pow2_127();
    lemma_ln_shrink_bounds(s, x, 127);
    let a1 = ln_shrink(s, x).0;
    assert(a1 <= 2 * s);
    assert(s <= a1 * (pow2(127) as int)) by (nonlinear_arith)
        requires
            a1 >= 1,
            s <= i128::MAX,
            pow2(127) as int > i128::MAX,
    ;
    lemma_ln_grow_bounds(s, a1, 127);
}

/// Range-reduced arctanh logarithm: normalize into `[1, 2]` by shifts, sum
/// the arctanh series to the fixed depth, and add the shifts back as
/// multiples of `ln 2`.
pub fn range_reduce_arctanh_ln<T: FixedPrecision, const APPROX_DEPTH: u32>(
    input: FixedDecimal<T>,
) -> (res: FixedDecimal<T>)
    requires
        FixedDecimal::<T>::precision_ok(),
        ln_defined(
            FixedDecimal::<T>::spec_scale(),
            FixedDecimal::<T>::ln2_raw(),
            input@,
            APPROX_DEPTH as nat,
        ),
    ensures
        res@ == ln_raw(
            FixedDecimal::<T>::spec_scale(),
            FixedDecimal::<T>::ln2_raw(),
            input@,
            APPROX_DEPTH as nat,
        ),
{
    let ghost s = FixedDecimal::<T>::spec_scale();
    let ghost l2 = FixedDecimal::<T>::ln2_raw();
    proof {
        crate::arith::lemma_pow10_pos(T::PRECISION as nat);
        lemma_ln_norm_bounds(s, input@);
        lemma_pow2_127();
        lemma_ln_shrink_bounds(s, input@, 127);
    }
    let scale = FixedDecimal::<T>::scale();
    let two_s: i128 = 2 * scale;
    let mut x = input;
    let mut shift_coef: i64 = 0;
    while x.to_raw() > two_s
        invariant
            FixedDecimal::<T>::precision_ok(),
            s == FixedDecimal::<T>::spec_scale(),
            s >= 1,
            scale as int == s,
            two_s as int == 2 * s,
            x@ >= 1,
            0 <= shift_coef,
            0 <= ln_shrink(s, x@).1,
            shift_coef + ln_shrink(s, x@).1 <= 127,
            ln_shrink(s, input@) == (ln_shrink(s, x@).0, shift_coef + ln_shrink(s, x@).1),
        decreases x@,
    {
        proof {
            lemma_pow2_127();
            lemma_ln_shrink_bounds(s, x@ / 2, 127);
            lemma_div_tz_bounds(x@, 2);
        }
        x = x.div_i128(2);
        shift_coef = shift_coef + 1;
    }
    let ghost a1 = x@;
    let ghost c1 = shift_coef as int;
    proof {
        assert(ln_shrink(s, input@) == (a1, c1));
        lemma_pow2_127();
        assert(s <= a1 * (pow2(127) as int)) by (nonlinear_arith)
            requires
                a1 >= 1,
                s <= i128::MAX,
                pow2(127) as int > i128::MAX,
        ;
        lemma_ln_grow_bounds(s, a1, 127);
    }
    while x.to_raw() < scale
        invariant
            FixedDecimal::<T>::precision_ok(),
            s == FixedDecimal::<T>::spec_scale(),
            s >= 1,
            scale as int == s,
            1 <= x@ <= 2 * s,
            0 <= c1 <= 127,
            in_i128(2 * s),
            c1 - 127 <= shift_coef <= c1,
            -127 <= ln_grow(s, x@).1 <= 0,
            (shift_coef - c1) + ln_grow(s, x@).1 >= -127,
            ln_grow(s, a1) == (ln_grow(s, x@).0, (shift_coef - c1) + ln_grow(s, x@).1),
        decreases 2 * s - x@,
    {
        proof {
            lemma_pow2_127();
            assert(s <= (2 * x@) * (pow2(127) as int)) by (nonlinear_arith)
                requires
                    x@ >= 1,
                    s <= i128::MAX,
                    pow2(127) as int > i128::MAX,
            ;
            lemma_ln_grow_bounds(s, 2 * x@, 127);
        }
        x = x.mul_i128(2);
        shift_coef = shift_coef - 1;
    }
    proof {
        assert(ln_grow(s, a1) == (x@, shift_coef - c1));
        assert(ln_norm(s, input@) == (x@, shift_coef as int));
    }
    let ghost a = ln_norm(s, input@).0;
    let ghost t = ln_t(s, a);
    let ghost t2v = ln_t2(s, a);
    let arctan_term = x.sub_i128(1).div(x.add_i128(1));
    let arctan_term_squared = arctan_term.mul(arctan_term);
    let mut nth_term = arctan_term;
    let mut running_sum = nth_term;
    let mut n: u64 = 1;
    while n < APPROX_DEPTH as u64
        invariant
            1 <= n,
            APPROX_DEPTH >= 1 ==> n <= APPROX_DEPTH as u64,
            APPROX_DEPTH == 0 ==> n == 1,
            FixedDecimal::<T>::precision_ok(),
            s == FixedDecimal::<T>::spec_scale(),
            l2 == FixedDecimal::<T>::ln2_raw(),
            ln_defined(s, l2, input@, APPROX_DEPTH as nat),
            a == ln_norm(s, input@).0,
            t == ln_t(s, a),
            t2v == ln_t2(s, a),
            arctan_term_squared@ == t2v,
            nth_term@ == ln_term(s, t, t2v, (n - 1) as nat),
            running_sum@ == ln_series(s, t, t2v, (n - 1) as nat),
        decreases APPROX_DEPTH as u64 - n,
    {
        proof {
            crate::arith::lemma_pow10_pos(T::PRECISION as nat);
            assert(1 <= n as nat <= ln_series_len(APPROX_DEPTH as nat));
            assert(in_i128(ln_term(s, t, t2v, (n - 1) as nat) * t2v) && in_i128(
                ln_series(s, t, t2v, (n - 1) as nat) + ln_term(s, t, t2v, n as nat),
            ));
            lemma_div_tz_bounds(ln_term(s, t, t2v, (n - 1) as nat) * t2v, s);
            lemma_div_tz_bounds(
                div_tz(ln_term(s, t, t2v, (n - 1) as nat) * t2v, s),
                2 * (n as int) + 1,
            );
        }
        nth_term = nth_term.mul(arctan_term_squared).div_i128(2 * (n as i128) + 1);
        running_sum = running_sum.add(nth_term);
        n = n + 1;
    }
    let shift = FixedDecimal::<T>::ln2().mul_i128(shift_coef as i128);
    running_sum.mul_i128(2).add(shift)
}

/// The direct logarithm as a capability value.
pub struct LnArcTanhExpansion<T: FixedPrecision, const APPROX_DEPTH: u32> {
    _precision: core::marker::PhantomData<T>,
}

impl<T: FixedPrecision, const APPROX_DEPTH: u32> LnArcTanhExpansion<T, APPROX_DEPTH> {
    pub fn new() -> (r: Self) {
        Self { _precision: core::marker::PhantomData }
    }
}

impl<T: FixedPrecision, const APPROX_DEPTH: u32> Function<T> for LnArcTanhExpansion<
    T,
    APPROX_DEPTH,
> {
    open spec fn domain(&self, x: FixedDecimal<T>) -> bool {
        &&& FixedDecimal::<T>::precision_ok()
        &&& ln_defined(
            FixedDecimal::<T>::spec_scale(),
            FixedDecimal::<T>::ln2_raw(),
            x@,
            APPROX_DEPTH as nat,
        )
    }

    open spec fn value(&self, x: FixedDecimal<T>) -> int {
        ln_raw(
            FixedDecimal::<T>::spec_scale(),
            FixedDecimal::<T>::ln2_raw(),
            x@,
            APPROX_DEPTH as nat,
        )
    }

    fn evaluate(&self, x: FixedDecimal<T>) -> (r: FixedDecimal<T>) {
        range_reduce_arctanh_ln::<T, APPROX_DEPTH>(x)
    }
}

impl<T: FixedPrecision, const APPROX_DEPTH: u32> TryFunction<T> for LnArcTanhExpansion<
    T,
    APPROX_DEPTH,
> {
    open spec fn try_domain(&self, x: FixedDecimal<T>) -> bool {
        &&& FixedDecimal::<T>::precision_ok()
        &&& (x@ > 0 ==> ln_defined(
            FixedDecimal::<T>::spec_scale(),
            FixedDecimal::<T>::ln2_raw(),
            x@,
            APPROX_DEPTH as nat,
        ))
    }

    open spec fn try_ok(&self, x: FixedDecimal<T>) -> bool {
        x@ > 0
    }

    open spec fn try_value(&self, x: FixedDecimal<T>) -> int {
        ln_raw(
            FixedDecimal::<T>::spec_scale(),
            FixedDecimal::<T>::ln2_raw(),
            x@,
            APPROX_DEPTH as nat,
        )
    }

    fn try_evaluate(&self, x: FixedDecimal<T>) -> (r: Result<FixedDecimal<T>, FixedFastError>)
        ensures
            x@ <= 0 ==> (r matches Err(e) && e matches FixedFastError::DomainError(m) && m@
                == "ln is undefined for non-positive numbers"@),
    {
        if x.to_raw() <= 0 {
            return Err(FixedFastError::DomainError("ln is undefined for non-positive numbers"));
        }
        Ok(range_reduce_arctanh_ln::<T, APPROX_DEPTH>(x))
    }
}

/// A logarithm table: samples of the direct routine with linear
/// interpolation between the two bracketing samples.
pub struct LnLinearInterpLookupTable<T: FixedPrecision, const APPROX_DEPTH: u32> {
    pub lookup: LookupTable<T>,
}

impl<T: FixedPrecision, const APPROX_DEPTH: u32> LnLinearInterpLookupTable<T, APPROX_DEPTH> {
    /// The raw value stored for grid point `i`.
    pub open spec fn val(&self, i: int) -> int {
        ln_raw(
            FixedDecimal::<T>::spec_scale(),
            FixedDecimal::<T>::ln2_raw(),
            self.lookup.sample(i),
            APPROX_DEPTH as nat,
        )
    }

    /// A well-formed lookup backed by exactly the direct routine's values.
    pub open spec fn wf(&self) -> bool {
        &&& self.lookup.wf()
        &&& forall|i: int|
            0 <= i < self.lookup.spec_size() ==> (#[trigger] self.lookup.table@[i])@ == self.val(i)
    }

    /// The interpolation between the two samples bracketing `xv`.
    pub open spec fn lerp_at(&self, xv: int) -> int {
        let i = self.lookup.spec_index(xv);
        lerp_raw(
            FixedDecimal::<T>::spec_scale(),
            xv,
            self.lookup.sample(i),
            self.lookup.sample(i) + self.lookup.step_size@,
            self.val(i),
            self.val(i + 1),
        )
    }

    /// Table/direct agreement at a grid point: the interpolation evaluated
    /// at the grid point itself gives back exactly the stored direct value.
    pub proof fn lemma_exact_at_sample(&self, i: int)
        requires
            self.wf(),
            0 <= i,
            i + 1 <= self.lookup.spec_size(),
        ensures
            self.lerp_at(self.lookup.sample(i)) == self.val(i),
    {
        crate::arith::lemma_pow10_pos(T::PRECISION as nat);
        self.lookup.lemma_index_at_sample(i);
        crate::interpolation::lemma_lerp_at_left_sample(
            FixedDecimal::<T>::spec_scale(),
            self.lookup.sample(i),
            self.lookup.sample(i) + self.lookup.step_size@,
            self.val(i),
            self.val(i + 1),
        );
    }

    /// What evaluation returns: the interpolation, except in the last
    /// bucket, which clamps to its own sample since the logarithm has no
    /// natural saturating bound.
    pub open spec fn spec_value(&self, xv: int) -> int {
        let i = self.lookup.spec_index(xv);
        if i + 1 >= self.lookup.spec_size() {
            self.val(i)
        } else {
            self.lerp_at(xv)
        }
    }

    /// The inputs evaluation accepts: in-domain values whose bucket exists,
    /// with the interpolation arithmetic in range where it is used.
    pub open spec fn eval_ok(&self, xv: int) -> bool {
        let i = self.lookup.spec_index(xv);
        &&& self.wf()
        &&& self.lookup.start@ <= xv <= self.lookup.end@
        &&& i < self.lookup.spec_size()
        &&& (i + 1 < self.lookup.spec_size() ==> lerp_ok(
            FixedDecimal::<T>::spec_scale(),
            xv,
            self.lookup.sample(i),
            self.lookup.sample(i) + self.lookup.step_size@,
            self.val(i),
            self.val(i + 1),
        ))
    }

    /// Builds the table by sampling the direct routine over the grid.
    pub fn new(
        start: FixedDecimal<T>,
        end: FixedDecimal<T>,
        step_size: FixedDecimal<T>,
    ) -> (r: Self)
        requires
            table_params_ok::<T>(start@, end@, step_size@),
            forall|i: int|
                0 <= i < spec_table_size::<T>(start@, end@, step_size@) ==> ln_defined(
                    FixedDecimal::<T>::spec_scale(),
                    FixedDecimal::<T>::ln2_raw(),
                    start@ + #[trigger] (step_size@ * i),
                    APPROX_DEPTH as nat,
                ),
        ensures
            r.wf(),
            r.lookup.start == start,
            r.lookup.end == end,
            r.lookup.step_size == step_size,
    {
        let ghost s = FixedDecimal::<T>::spec_scale();
        let ghost l2 = FixedDecimal::<T>::ln2_raw();
        Self {
            lookup: LookupTable::new(
                start,
                end,
                step_size,
                range_reduce_arctanh_ln::<T, APPROX_DEPTH>,
                Ghost(|xv: int| ln_raw(s, l2, xv, APPROX_DEPTH as nat)),
            ),
        }
    }
}

impl<T: FixedPrecision, const APPROX_DEPTH: u32> Function<T> for LnLinearInterpLookupTable<
    T,
    APPROX_DEPTH,
> {
    open spec fn domain(&self, x: FixedDecimal<T>) -> bool {
        self.eval_ok(x@)
    }

    open spec fn value(&self, x: FixedDecimal<T>) -> int {
        self.spec_value(x@)
    }

    fn evaluate(&self, x: FixedDecimal<T>) -> (r: FixedDecimal<T>) {
        proof {
            self.lookup.lemma_index_properties(x@);
        }
        let index = self.lookup.get_index(x).expect("Index not found");
        if index + 1 >= self.lookup.table.len() {
            return self.lookup.table[index];
        }
        proof {
            let ghost i = self.lookup.spec_index(x@);
            assert(in_i128(self.lookup.step_size@ * (i + 1)) && in_i128(self.lookup.sample(i + 1)));
            assert(self.lookup.step_size@ * (i + 1) == self.lookup.step_size@ * i
                + self.lookup.step_size@) by (nonlinear_arith);
        }
        let lower_value = self.lookup.step_size().mul_i128(index as i128).add(self.lookup.start());
        linear_interpolation(
            x,
            lower_value,
            lower_value.add(self.lookup.step_size()),
            self.lookup.table[index],
            self.lookup.table[index + 1],
        )
    }
}

impl<T: FixedPrecision, const APPROX_DEPTH: u32> TryFunction<T> for LnLinearInterpLookupTable<
    T,
    APPROX_DEPTH,
> {
    open spec fn try_domain(&self, x: FixedDecimal<T>) -> bool {
        &&& self.wf()
        &&& (self.lookup.start@ <= x@ < self.lookup.end@ && self.lookup.spec_index(x@)
            < self.lookup.spec_size() ==> self.eval_ok(x@))
    }

    open spec fn try_ok(&self, x: FixedDecimal<T>) -> bool {
        self.lookup.start@ <= x@ < self.lookup.end@ && self.lookup.spec_index(x@)
            < self.lookup.spec_size()
    }

    open spec fn try_value(&self, x: FixedDecimal<T>) -> int {
        self.spec_value(x@)
    }

    fn try_evaluate(&self, x: FixedDecimal<T>) -> (r: Result<FixedDecimal<T>, FixedFastError>)
        ensures
            !(self.lookup.start@ <= x@ < self.lookup.end@ && self.lookup.spec_index(x@)
                < self.lookup.spec_size()) ==> (r matches Err(e) && e matches
                FixedFastError::OutOfRange(v) && v as int == crate::arith::div_tz(
                x@,
                FixedDecimal::<T>::spec_scale(),
            )),
    {
        proof {
            if self.lookup.start@ <= x@ < self.lookup.end@ {
                self.lookup.lemma_index_properties(x@);
            }
        }
        let index = match self.lookup.get_index(x) {
            Ok(i) => i,
            Err(e) => {
                return Err(e);
            },
        };
        // A bucket past the last sample holds no entry: such a value lies
        // outside the sampled grid, an out-of-range error here.
        if index >= self.lookup.table.len() {
            return Err(FixedFastError::OutOfRange(x.to_i128()));
        }
        if index + 1 >= self.lookup.table.len() {
            return Ok(self.lookup.table[index]);
        }
        proof {
            let ghost i = self.lookup.spec_index(x@);
            assert(in_i128(self.lookup.step_size@ * (i + 1)) && in_i128(self.lookup.sample(i + 1)));
            assert(self.lookup.step_size@ * (i + 1) == self.lookup.step_size@ * i
                + self.lookup.step_size@) by (nonlinear_arith);
        }
        let lower_value = self.lookup.step_size().mul_i128(index as i128).add(self.lookup.start());
        Ok(
            linear_interpolation(
                x,
                lower_value,
                lower_value.add(self.lookup.step_size()),
                self.lookup.table[index],
                self.lookup.table[index + 1],
            ),
        )
    }
}

/// With a zero series argument every term vanishes.
proof fn lemma_ln_series_zero(s: int, n: nat)
    requires
        s >= 1,
    ensures
        ln_term(s, 0, 0, n) == 0,
        ln_series(s, 0, 0, n) == 0,
    decreases n,
{
    if n >= 1 {
        lemma_ln_series_zero(s, (n - 1) as nat);
        assert(ln_term(s, 0, 0, (n - 1) as nat) * 0 == 0) by (nonlinear_arith);
        crate::arith::lemma_div_tz_zero(s);
        crate::arith::lemma_div_tz_zero(2 * (n as int) + 1);
    }
}

/// Fixed point: the logarithm of one is exactly zero, at any depth.
pub proof fn lemma_ln_of_one(s: int, ln2: int, depth: nat)
    requires
        1 <= s <= i128::MAX,
    ensures
        ln_raw(s, ln2, s, depth) == 0,
{
    assert(ln_shrink(s, s) == (s, 0int));
    assert(ln_grow(s, s) == (s, 0int));
    assert(ln_norm(s, s) == (s, 0int));
    assert((s - s) * s == 0) by (nonlinear_arith);
    crate::arith::lemma_div_tz_zero(s + s);
    assert(ln_t(s, s) == 0);
    assert(0 * 0 == 0) by (nonlinear_arith);
    crate::arith::lemma_div_tz_zero(s);
    assert(ln_t2(s, s) == 0);
    lemma_ln_series_zero(s, ln_series_len(depth));
    assert(ln2 * 0 == 0) by (nonlinear_arith);
}

/// The logarithm's domain contains one whenever twice the scale and the
/// shift product are representable: every clause of `ln_defined` holds at
/// the raw value of one.
pub proof fn lemma_ln_defined_at_one(s: int, ln2: int, depth: nat)
    requires
        1 <= s,
        2 * s <= i128::MAX,
        in_i128(ln2),
    ensures
        ln_defined(s, ln2, s, depth),
{
    assert(ln_shrink(s, s) == (s, 0int));
    assert(ln_grow(s, s) == (s, 0int));
    assert(ln_norm(s, s) == (s, 0int));
    assert((s - s) * s == 0) by (nonlinear_arith);
    crate::arith::lemma_div_tz_zero(s + s);
    assert(ln_t(s, s) == 0);
    assert(0 * 0 == 0) by (nonlinear_arith);
    crate::arith::lemma_div_tz_zero(s);
    assert(ln_t2(s, s) == 0);
    lemma_ln_series_zero(s, ln_series_len(depth));
    assert(ln2 * 0 == 0) by (nonlinear_arith);
    assert forall|n: nat| 1 <= n <= ln_series_len(depth) implies in_i128(
        #[trigger] ln_term(s, 0, 0, (n - 1) as nat) * 0,
    ) && in_i128(ln_series(s, 0, 0, (n - 1) as nat) + ln_term(s, 0, 0, n)) by {
        lemma_ln_series_zero(s, (n - 1) as nat);
        lemma_ln_series_zero(s, n);
        assert(ln_term(s, 0, 0, (n - 1) as nat) * 0 == 0) by (nonlinear_arith);
    }
}

/// Bounds on every arctanh term and partial sum when the series argument
/// and its square stay within one.
proof fn lemma_ln_series_bounded(s: int, t: int, t2: int, n: nat)
    requires
        1 <= s,
        -s <= t <= s,
        -s <= t2 <= s,
    ensures
        -s <= ln_term(s, t, t2, n) <= s,
        -((n + 1) * s) <= ln_series(s, t, t2, n) <= (n + 1) * s,
    decreases n,
{
    if n == 0 {
        assert(1 * s == s) by (nonlinear_arith);
    } else {
        lemma_ln_series_bounded(s, t, t2, (n - 1) as nat);
        let p = ln_term(s, t, t2, (n - 1) as nat);
        assert(-(s * s) <= p * t2 <= s * s) by (nonlinear_arith)
            requires
                -s <= p <= s,
                -s <= t2 <= s,
                s >= 1,
        ;
        crate::arith::lemma_div_tz_magnitude(p * t2, s, s);
        let q = div_tz(p * t2, s);
        assert(-(s * (2 * (n as int) + 1)) <= q <= s * (2 * (n as int) + 1)) by (nonlinear_arith)
            requires
                -s <= q <= s,
                n >= 1,
                s >= 1,
        ;
        crate::arith::lemma_div_tz_magnitude(q, 2 * (n as int) + 1, s);
        assert((n + 1) * s == (n as int) * s + s) by (nonlinear_arith);
    }
}

/// A sufficient condition for the logarithm's domain: every raw value
/// already inside the normalized band `[1, 2]` is accepted once the
/// series arithmetic fits the scale.  In particular the domain is far
/// from empty.
pub proof fn lemma_ln_defined_banded(s: int, ln2: int, x: int, depth: nat)
    requires
        1 <= s,
        s <= x <= 2 * s,
        3 * s <= i128::MAX,
        2 * (((ln_series_len(depth) + 1) * s) * s) <= i128::MAX,
    ensures
        ln_defined(s, ln2, x, depth),
{
    let big = 2 * (((ln_series_len(depth) + 1) * s) * s);
    assert(s * s <= big && (ln_series_len(depth) + 1) * s <= big) by (nonlinear_arith)
        requires
            s >= 1,
            big == 2 * (((ln_series_len(depth) + 1) * s) * s),
    ;
    assert(ln_shrink(s, x) == (x, 0int));
    assert(ln_grow(s, x) == (x, 0int));
    assert(ln_norm(s, x) == (x, 0int));
    let a = x;
    assert(-(s * (a + s)) <= (a - s) * s <= s * (a + s)) by (nonlinear_arith)
        requires
            0 <= a - s <= s,
            a + s >= s >= 1,
    ;
    crate::arith::lemma_div_tz_magnitude((a - s) * s, a + s, s);
    let t = ln_t(s, a);
    assert(-(s * s) <= (a - s) * s <= s * s) by (nonlinear_arith)
        requires
            0 <= a - s <= s,
            s >= 1,
    ;
    assert(-(s * s) <= t * t <= s * s) by (nonlinear_arith)
        requires
            -s <= t <= s,
    ;
    crate::arith::lemma_div_tz_magnitude(t * t, s, s);
    let t2v = ln_t2(s, a);
    assert forall|n: nat| 1 <= n <= ln_series_len(depth) implies in_i128(
        #[trigger] ln_term(s, t, t2v, (n - 1) as nat) * t2v,
    ) && in_i128(ln_series(s, t, t2v, (n - 1) as nat) + ln_term(s, t, t2v, n)) by {
        lemma_ln_series_bounded(s, t, t2v, (n - 1) as nat);
        lemma_ln_series_bounded(s, t, t2v, n);
        let p = ln_term(s, t, t2v, (n - 1) as nat);
        assert(-(s * s) <= p * t2v <= s * s) by (nonlinear_arith)
            requires
                -s <= p <= s,
                -s <= t2v <= s,
                s >= 1,
        ;
        assert(-big <= ln_series(s, t, t2v, (n - 1) as nat) + ln_term(s, t, t2v, n) && ln_series(
            s,
            t,
            t2v,
            (n - 1) as nat,
        ) + ln_term(s, t, t2v, n) <= big) by (nonlinear_arith)
            requires
                -((n as int) * s) <= ln_series(s, t, t2v, (n - 1) as nat) <= (n as int) * s,
                -s <= ln_term(s, t, t2v, n) <= s,
                1 <= n <= ln_series_len(depth),
                s >= 1,
                big == 2 * (((ln_series_len(depth) + 1) * s) * s),
        ;
    }
    lemma_ln_series_bounded(s, t, t2v, ln_series_len(depth));
    let ser = ln_series(s, t, t2v, ln_series_len(depth));
    assert(-big <= ser * 2 <= big) by (nonlinear_arith)
        requires
            -((ln_series_len(depth) + 1) * s) <= ser <= (ln_series_len(depth) + 1) * s,
            big == 2 * (((ln_series_len(depth) + 1) * s) * s),
            s >= 1,
    ;
    assert(ln2 * 0 == 0) by (nonlinear_arith);
}

} // verus!
