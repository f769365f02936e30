//! Deterministic fixed-point decimal arithmetic and special-function
//! approximations (exponential, natural logarithm, square root, standard
//! normal CDF and PDF) built entirely on scaled `i128` integers, together
//! with lookup tables for O(1) interpolated evaluation.

mod arith;
mod cdf;
mod error;
mod exp;
mod fixed_decimal;
mod function;
mod interpolation;
mod ln;
mod lookup_table;
mod pdf;
mod sqrt;
mod text;

pub use cdf::{topher_cdf, CDFBowlingRational, CDFCustomAprox, CDFLinearInterpLookupTable};
pub use error::FixedFastError;
pub use exp::{range_reduce_taylor_exp, ExpLinearInterpLookupTable, ExpRangeReduceTaylor};
pub use fixed_decimal::{FixedDecimal, FixedPrecision};
pub use function::{Function, TryFunction};
pub use interpolation::linear_interpolation;
pub use ln::{range_reduce_arctanh_ln, LnArcTanhExpansion, LnLinearInterpLookupTable};
pub use lookup_table::LookupTable;
pub use pdf::{pdf, PDFLinearInterpLookupTable, PDF};
pub use sqrt::{sqrt_newton_raphson, sqrt_newton_raphson_try, SqrtLinearInterpLookupTable,
    SqrtNewtonRaphson};
