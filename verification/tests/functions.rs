use fixed_fast::{
    pdf, range_reduce_arctanh_ln, range_reduce_taylor_exp, sqrt_newton_raphson,
    CDFCustomAprox, CDFLinearInterpLookupTable, ExpLinearInterpLookupTable, FixedDecimal,
    FixedPrecision, Function, PDFLinearInterpLookupTable, SqrtLinearInterpLookupTable, PDF,
};

#[derive(Debug, PartialEq, Eq, PartialOrd, Ord, Clone, Copy)]
struct F9;
#[derive(Debug, PartialEq, Eq, PartialOrd, Ord, Clone, Copy)]
struct F10;
#[derive(Debug, PartialEq, Eq, PartialOrd, Ord, Clone, Copy)]
struct F14;
#[derive(Debug, PartialEq, Eq, PartialOrd, Ord, Clone, Copy)]
struct F18;

impl FixedPrecision for F9 {
    const PRECISION: u32 = 9;
}

impl FixedPrecision for F10 {
    const PRECISION: u32 = 10;
}

impl FixedPrecision for F14 {
    const PRECISION: u32 = 14;
}

impl FixedPrecision for F18 {
    const PRECISION: u32 = 18;
}

#[test]
fn test_range_reduce_taylor_exp() {
    let x = FixedDecimal::<F10>::from_str("1.0").unwrap();
    assert_eq!(
        range_reduce_taylor_exp::<F10, 10>(x),
        FixedDecimal::<F10>::from_str("2.7182818278").unwrap()
    );
    let x = FixedDecimal::<F10>::from_str("-1.231231").unwrap();
    assert_eq!(
        range_reduce_taylor_exp::<F10, 20>(x),
        FixedDecimal::<F10>::from_str("0.291932986891").unwrap()
    );
    let x = FixedDecimal::<F10>::from_str("0").unwrap();
    assert_eq!(
        range_reduce_taylor_exp::<F10, 20>(x),
        FixedDecimal::<F10>::from_str("1").unwrap()
    );
}

#[test]
fn test_exp_linear_interp_lookup_table() {
    let table = ExpLinearInterpLookupTable::<F10, 10>::new(
        FixedDecimal::<F10>::from_str("-10").unwrap(),
        FixedDecimal::<F10>::from_str("10").unwrap(),
        FixedDecimal::<F10>::from_str("0.00001").unwrap(),
    );
    assert_eq!(
        table.evaluate(FixedDecimal::<F10>::from_str("-1.12313512").unwrap()),
        FixedDecimal::<F10>::from_str("0.3252584700").unwrap()
    );
    assert_eq!(
        table.evaluate(FixedDecimal::<F10>::from_str("2").unwrap()),
        FixedDecimal::<F10>::from_str("7.3890560972").unwrap()
    );
}

#[test]
fn test_function() {
    assert_eq!(
        range_reduce_arctanh_ln::<F18, 10>(FixedDecimal::<F18>::from_i128(1)),
        FixedDecimal::<F18>::from_i128(0)
    );
    let input = FixedDecimal::<F18>::from_str("1.4").unwrap();
    assert_eq!(
        range_reduce_arctanh_ln::<F18, 10>(input),
        FixedDecimal::<F18>::from_str("0.336436968116129286").unwrap()
    );
    let input = FixedDecimal::<F18>::from_str("69.3").unwrap();
    assert_eq!(
        range_reduce_arctanh_ln::<F18, 10>(input),
        FixedDecimal::<F18>::from_str("4.238444879656876612").unwrap()
    );
}

#[test]
fn test_lookup_table() {}

#[test]
fn test_sqrt_newton_raphson() {
    let input = FixedDecimal::<F18>::from_str("1.3453453453453453").unwrap();
    assert_eq!(
        sqrt_newton_raphson::<F18, 12>(input),
        FixedDecimal::<F18>::from_str("1.159890229868906732").unwrap()
    );
}

#[test]
fn test_sqrt_linear_interp_lookup_table() {
    let sqrt = SqrtLinearInterpLookupTable::<F18, 12>::new(
        FixedDecimal::<F18>::from_str("0").unwrap(),
        FixedDecimal::<F18>::from_str("40").unwrap(),
        FixedDecimal::<F18>::from_str("0.00001").unwrap(),
    );
    let input = FixedDecimal::<F18>::from_str("27.234124123124").unwrap();
    assert_eq!(
        sqrt.evaluate(input),
        FixedDecimal::<F18>::from_str("5.218632399692833084").unwrap()
    );
}

#[test]
fn test_cdf() {
    let cdf = CDFCustomAprox::new();
    let x = FixedDecimal::<F9>::from_str("1.16685").unwrap();
    assert_eq!(
        cdf.evaluate(x),
        FixedDecimal::<F9>::from_str("0.878364523159478638").unwrap()
    );
    let x = FixedDecimal::<F9>::from_str("-1.12313512").unwrap();
    assert_eq!(
        cdf.evaluate(x),
        FixedDecimal::<F9>::from_str("0.130690057273233524").unwrap()
    );
}

#[test]
fn test_cdf_linear_interp_lookup_table() {
    let table = CDFLinearInterpLookupTable::<F9>::new(
        FixedDecimal::<F9>::from_str("6").unwrap(),
        FixedDecimal::<F9>::from_str("0.00001").unwrap(),
    );
    assert_eq!(
        table.evaluate(FixedDecimal::<F9>::from_str("-1.12313512").unwrap()),
        FixedDecimal::<F9>::from_str("0.130690058").unwrap()
    );
}

#[test]
fn test_pdf() {
    let pdf_fn = PDF::new();
    let x = FixedDecimal::<F10>::from_str("0").unwrap();
    assert_eq!(
        pdf_fn.evaluate(x),
        FixedDecimal::<F10>::from_str("0.3989422804").unwrap()
    );
}

#[test]
fn test_pdf_linear_interp_lookup_table() {
    let pdf_table = PDFLinearInterpLookupTable::<F14>::new(
        FixedDecimal::<F14>::from_str("-4").unwrap(),
        FixedDecimal::<F14>::from_str("4").unwrap(),
        FixedDecimal::<F14>::from_str("0.00001").unwrap(),
    );
    assert_eq!(
        pdf_table.evaluate(FixedDecimal::<F14>::from_str("-1.12313512").unwrap()),
        FixedDecimal::<F14>::from_str("0.21232125827745").unwrap()
    );
    assert_eq!(
        pdf_table.evaluate(FixedDecimal::<F14>::from_str("0").unwrap()),
        FixedDecimal::<F14>::from_str("0.39894228040143").unwrap()
    );
    assert_eq!(
        pdf_table.evaluate(FixedDecimal::<F14>::from_str("2.3463434").unwrap()),
        FixedDecimal::<F14>::from_str("0.02543568401209").unwrap()
    );
}

#[test]
fn ln_direct_and_exp_are_inverse_near_one() {
    // exp(ln(1.4)) comes back to 1.4 within a few units in the last place.
    let x = FixedDecimal::<F10>::from_str("1.4").unwrap();
    let lnx = range_reduce_arctanh_ln::<F10, 20>(x);
    let back = range_reduce_taylor_exp::<F10, 20>(lnx);
    let diff = (back.to_raw() - x.to_raw()).abs();
    assert!(diff <= 1_000_000, "diff {}", diff);
}

#[test]
fn exp_one_matches_e_constant() {
    // The series at high order reproduces the stored constant's digits.
    let x = FixedDecimal::<F18>::from_i128(1);
    let e_series = range_reduce_taylor_exp::<F18, 40>(x);
    let e_const = FixedDecimal::<F18>::e();
    let diff = (e_series.to_raw() - e_const.to_raw()).abs();
    assert!(diff <= 100, "diff {}", diff);
}

#[test]
fn pdf_direct_value_at_zero() {
    let x = FixedDecimal::<F14>::from_i128(0);
    let y = pdf::<F14>(x);
    assert_eq!(y.to_string(), "0.39894228040143");
}
