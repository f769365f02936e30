//! The closed set of failure kinds of the fallible API surface.

use vstd::prelude::*;

verus! {

/// Every failure a checked operation can report: a lookup outside a table's
/// sampled domain, a mathematically undefined input, an explicit division by
/// zero, or arithmetic that would leave the `i128` range.
#[derive(Debug, PartialEq, Eq)]
pub enum FixedFastError {
    /// The integer part of the offending value.
    OutOfRange(i128),
    /// A static description of the violated domain condition.
    DomainError(&'static str),
    DivideByZero,
    Overflow,
}

} // verus!
