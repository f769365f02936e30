//! The capability contract every numeric algorithm implements.
//!
//! `evaluate` is the fast path: its precondition `domain` marks the inputs
//! the algorithm accepts, and on those the result is pinned to the raw value
//! `value` gives.  `try_evaluate` is the fallible path: on inputs where
//! `try_ok` holds it returns `Ok` of exactly `try_value`, on the others a
//! typed error — and it never panics.

use vstd::prelude::*;

use crate::error::FixedFastError;
use crate::fixed_decimal::{FixedDecimal, FixedPrecision};

verus! {

pub trait Function<T: FixedPrecision>: Sized {
    /// The inputs on which `evaluate` may be called.
    spec fn domain(&self, x: FixedDecimal<T>) -> bool;

    /// The raw value `evaluate` returns on an accepted input.
    spec fn value(&self, x: FixedDecimal<T>) -> int;

    fn evaluate(&self, x: FixedDecimal<T>) -> (r: FixedDecimal<T>)
        requires
            self.domain(x),
        ensures
            r@ == self.value(x),
    ;
}

pub trait TryFunction<T: FixedPrecision>: Sized {
    /// The inputs on which `try_evaluate` may be called at all: those for
    /// which every intermediate step of the computation is defined, so that
    /// failure is reported as a typed error rather than a panic.
    spec fn try_domain(&self, x: FixedDecimal<T>) -> bool;

    /// Whether the evaluation succeeds on this input.
    spec fn try_ok(&self, x: FixedDecimal<T>) -> bool;

    /// The raw value of the successful evaluation.
    spec fn try_value(&self, x: FixedDecimal<T>) -> int;

    fn try_evaluate(&self, x: FixedDecimal<T>) -> (r: Result<FixedDecimal<T>, FixedFastError>)
        requires
            self.try_domain(x),
        ensures
            self.try_ok(x) ==> (r matches Ok(v) && v@ == self.try_value(x)),
            !self.try_ok(x) ==> (r matches Err(_)),
    ;
}

} // verus!
