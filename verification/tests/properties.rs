use fixed_fast::{
    range_reduce_arctanh_ln, range_reduce_taylor_exp, sqrt_newton_raphson, CDFBowlingRational,
    CDFCustomAprox, CDFLinearInterpLookupTable, ExpLinearInterpLookupTable, FixedDecimal,
    FixedFastError, FixedPrecision,
    Function, LnArcTanhExpansion, PDFLinearInterpLookupTable, SqrtNewtonRaphson, TryFunction,
};

#[derive(Debug, PartialEq, Eq, PartialOrd, Ord, Clone, Copy)]
struct F9;
#[derive(Debug, PartialEq, Eq, PartialOrd, Ord, Clone, Copy)]
struct F10;
#[derive(Debug, PartialEq, Eq, PartialOrd, Ord, Clone, Copy)]
struct F18;

impl FixedPrecision for F9 {
    const PRECISION: u32 = 9;
}

impl FixedPrecision for F10 {
    const PRECISION: u32 = 10;
}

impl FixedPrecision for F18 {
    const PRECISION: u32 = 18;
}

#[test]
fn round_trip_through_text() {
    let samples = [
        "0",
        "1",
        "-1",
        "12.231231",
        "-12.231231",
        "0.5",
        "-0.5",
        "0.000000001",
        "-0.000000001",
        "123456789.987654321",
    ];
    for s in samples.iter() {
        let x = FixedDecimal::<F9>::from_str(s).unwrap();
        let back = FixedDecimal::<F9>::from_str(&x.to_string()).unwrap();
        assert_eq!(back, x);
    }
    // Raw values that no short literal produces round-trip too.
    for raw in [0i128, 1, -1, 7, -7, 999999999, -999999999, 123456789012345678, i128::MAX] {
        let x = FixedDecimal::<F9>::from_raw(raw);
        let back = FixedDecimal::<F9>::from_str(&x.to_string()).unwrap();
        assert_eq!(back, x);
    }
}

#[test]
fn from_str_error_cases() {
    assert_eq!(
        FixedDecimal::<F9>::from_str("abc"),
        Err("Invalid integer part")
    );
    assert_eq!(FixedDecimal::<F9>::from_str(""), Err("Invalid integer part"));
    assert_eq!(FixedDecimal::<F9>::from_str("-"), Err("Invalid integer part"));
    assert_eq!(
        FixedDecimal::<F9>::from_str("1."),
        Err("Invalid decimal part")
    );
    assert_eq!(
        FixedDecimal::<F9>::from_str("1.2x"),
        Err("Invalid decimal part")
    );
    assert_eq!(
        FixedDecimal::<F9>::from_str("999999999999999999999999999999999999999"),
        Err("value out of range")
    );
}

#[test]
fn cdf_symmetry() {
    let cdf = CDFCustomAprox::new();
    let one = FixedDecimal::<F9>::one();
    for s in ["0.5", "1.12313512", "2", "5.9"].iter() {
        let x = FixedDecimal::<F9>::from_str(s).unwrap();
        let lo = cdf.evaluate(x.neg());
        let hi = cdf.evaluate(x);
        assert_eq!(lo.add(hi), one);
    }
    let rational = CDFBowlingRational::new();
    for s in ["0", "0.5", "1.12313512", "2"].iter() {
        let x = FixedDecimal::<F9>::from_str(s).unwrap();
        let lo = rational.evaluate(x.neg());
        let hi = rational.evaluate(x);
        assert_eq!(lo.add(hi), one);
    }
}

#[test]
fn monotonicity_spot_checks() {
    // The direct exponential grows along a rising chain of inputs.
    let points = ["-2", "-1", "0", "0.5", "1", "2", "3"];
    let mut prev: Option<FixedDecimal<F10>> = None;
    for s in points.iter() {
        let y = range_reduce_taylor_exp::<F10, 20>(FixedDecimal::<F10>::from_str(s).unwrap());
        if let Some(p) = prev {
            assert!(p < y);
        }
        prev = Some(y);
    }
    // So does the square root.
    let mut prev: Option<FixedDecimal<F18>> = None;
    for s in ["0", "1", "4", "9", "27.234124123124"].iter() {
        let y = sqrt_newton_raphson::<F18, 12>(FixedDecimal::<F18>::from_str(s).unwrap());
        if let Some(p) = prev {
            assert!(p < y);
        }
        prev = Some(y);
    }
    // The cumulative distribution never falls.
    let cdf = CDFCustomAprox::new();
    let mut prev: Option<FixedDecimal<F9>> = None;
    for s in ["-7", "-2", "-0.5", "0", "0.5", "2", "7"].iter() {
        let y = cdf.evaluate(FixedDecimal::<F9>::from_str(s).unwrap());
        if let Some(p) = prev {
            assert!(p <= y);
        }
        prev = Some(y);
    }
}

#[test]
fn fixed_points() {
    assert_eq!(
        range_reduce_taylor_exp::<F10, 20>(FixedDecimal::<F10>::zero()),
        FixedDecimal::<F10>::one()
    );
    assert_eq!(
        range_reduce_arctanh_ln::<F18, 10>(FixedDecimal::<F18>::one()),
        FixedDecimal::<F18>::zero()
    );
    assert_eq!(
        sqrt_newton_raphson::<F18, 12>(FixedDecimal::<F18>::zero()),
        FixedDecimal::<F18>::zero()
    );
    // The rational logistic form is exactly one half at zero.
    let rational = CDFBowlingRational::new();
    let half = rational.evaluate(FixedDecimal::<F10>::zero());
    assert_eq!(half.to_string(), "0.5");
}

#[test]
fn rational_cdf_scenario() {
    // The rational form approximates the tabulated normal CDF: at
    // -1.12313512 the true value is near 0.1307564188.
    let rational = CDFBowlingRational::new();
    let x = FixedDecimal::<F10>::from_str("-1.12313512").unwrap();
    let y = rational.evaluate(x);
    let expected = FixedDecimal::<F10>::from_str("0.1307564188").unwrap();
    let diff = (y.to_raw() - expected.to_raw()).abs();
    assert!(diff < 10_000_000, "value {} diff {}", y.to_string(), diff);
}

#[test]
fn table_matches_direct_at_grid_point() {
    let table = ExpLinearInterpLookupTable::<F10, 10>::new(
        FixedDecimal::<F10>::from_str("-1").unwrap(),
        FixedDecimal::<F10>::from_str("1").unwrap(),
        FixedDecimal::<F10>::from_str("0.25").unwrap(),
    );
    // -0.5 sits exactly on the grid, so the table gives the direct value.
    let x = FixedDecimal::<F10>::from_str("-0.5").unwrap();
    assert_eq!(table.evaluate(x), range_reduce_taylor_exp::<F10, 10>(x));
}

#[test]
fn domain_errors() {
    let sqrt = SqrtNewtonRaphson::<F18, 12>::new();
    let minus_one = FixedDecimal::<F18>::from_i128(-1);
    assert!(matches!(
        sqrt.try_evaluate(minus_one),
        Err(FixedFastError::DomainError(_))
    ));
    let ln = LnArcTanhExpansion::<F18, 10>::new();
    assert!(matches!(
        ln.try_evaluate(FixedDecimal::<F18>::zero()),
        Err(FixedFastError::DomainError(_))
    ));
    assert!(matches!(
        ln.try_evaluate(minus_one),
        Err(FixedFastError::DomainError(_))
    ));
}

#[test]
fn checked_arithmetic_errors() {
    let a = FixedDecimal::<F9>::from_raw(i128::MAX);
    let b = FixedDecimal::<F9>::from_raw(1);
    assert!(matches!(a.checked_add(b), Err(FixedFastError::Overflow)));
    let c = FixedDecimal::<F9>::from_raw(i128::MIN);
    assert!(matches!(c.checked_sub(b), Err(FixedFastError::Overflow)));
    assert!(matches!(a.checked_mul(a), Err(FixedFastError::Overflow)));
    let z = FixedDecimal::<F9>::zero();
    assert!(matches!(b.checked_div(z), Err(FixedFastError::DivideByZero)));
    assert_eq!(
        FixedDecimal::<F9>::from_i128(1)
            .checked_add(FixedDecimal::<F9>::from_i128(2))
            .unwrap(),
        FixedDecimal::<F9>::from_i128(3)
    );
    assert!(matches!(
        FixedDecimal::<F9>::from_i128(-1).checked_sqrt::<12>(),
        Err(FixedFastError::DomainError(_))
    ));
}

#[test]
fn lookup_out_of_range() {
    let table = ExpLinearInterpLookupTable::<F10, 10>::new(
        FixedDecimal::<F10>::from_i128(0),
        FixedDecimal::<F10>::from_i128(2),
        FixedDecimal::<F10>::from_str("0.5").unwrap(),
    );
    let lookup = &table.lookup;
    assert_eq!(
        lookup.get_index(FixedDecimal::<F10>::from_str("1.5").unwrap()),
        Ok(3)
    );
    assert!(matches!(
        lookup.get_index(FixedDecimal::<F10>::from_i128(5)),
        Err(FixedFastError::OutOfRange(5))
    ));
    // The sampled domain is half-open: its upper bound is already outside.
    assert!(matches!(
        lookup.get_index(FixedDecimal::<F10>::from_i128(2)),
        Err(FixedFastError::OutOfRange(2))
    ));
    assert_eq!(lookup.start(), FixedDecimal::<F10>::from_i128(0));
    assert_eq!(lookup.end(), FixedDecimal::<F10>::from_i128(2));
    assert_eq!(
        lookup.step_size(),
        FixedDecimal::<F10>::from_str("0.5").unwrap()
    );
}

#[test]
fn le_bytes_round_trip() {
    let x = FixedDecimal::<F9>::from_raw(258);
    let bytes = x.to_le_bytes();
    assert_eq!(bytes[0], 2);
    assert_eq!(bytes[1], 1);
    assert_eq!(bytes[2], 0);
    assert_eq!(FixedDecimal::<F9>::from_le_bytes(bytes), x);
    let y = FixedDecimal::<F9>::from_raw(-1);
    assert_eq!(y.to_le_bytes(), [0xFF; 16]);
    assert_eq!(FixedDecimal::<F9>::from_le_bytes([0xFF; 16]), y);
}

#[test]
fn helpers_and_constants() {
    let x = FixedDecimal::<F9>::from_str("2.5").unwrap();
    assert_eq!(x.signum(), 1);
    assert_eq!(x.neg().signum(), -1);
    assert_eq!(FixedDecimal::<F9>::zero().signum(), 0);
    assert_eq!(x.abs(), x);
    assert_eq!(x.neg().abs(), x);
    assert_eq!(x.floor(), FixedDecimal::<F9>::from_i128(2));
    assert_eq!(x.floor_i128(), 2);
    assert_eq!(FixedDecimal::<F9>::min_positive().to_raw(), 1);
    assert_eq!(FixedDecimal::<F9>::two_pow_k(3), FixedDecimal::<F9>::from_i128(8));
    assert_eq!(
        FixedDecimal::<F9>::two_pow_k(-1).to_string(),
        "0.5"
    );
    assert_eq!(x.cubed().to_string(), "15.625");
    assert_eq!(x.tesseracted().to_string(), "39.0625");
    assert_eq!(x.pow_i128(2).to_string(), "6.25");
    let coeffs = [
        FixedDecimal::<F9>::from_i128(1),
        FixedDecimal::<F9>::from_i128(2),
        FixedDecimal::<F9>::from_i128(3),
    ];
    // 1 + 2x + 3x^2 at x = 2.5 is 24.75.
    assert_eq!(x.polynomial(&coeffs).to_string(), "24.75");
}

#[test]
fn table_fallible_out_of_range() {
    let table = ExpLinearInterpLookupTable::<F10, 10>::new(
        FixedDecimal::<F10>::from_i128(0),
        FixedDecimal::<F10>::from_i128(2),
        FixedDecimal::<F10>::from_str("0.5").unwrap(),
    );
    assert!(matches!(
        table.try_evaluate(FixedDecimal::<F10>::from_i128(5)),
        Err(FixedFastError::OutOfRange(5))
    ));
    // The upper bound itself is out of range on the fallible path, with
    // no panic.
    assert!(matches!(
        table.try_evaluate(FixedDecimal::<F10>::from_i128(2)),
        Err(FixedFastError::OutOfRange(2))
    ));
    let inside = FixedDecimal::<F10>::from_str("0.7").unwrap();
    assert_eq!(table.try_evaluate(inside).unwrap(), table.evaluate(inside));
    // The last bucket clamps to its own sample.
    let near_end = FixedDecimal::<F10>::from_str("1.9").unwrap();
    let edge_sample = FixedDecimal::<F10>::from_str("1.5").unwrap();
    assert_eq!(
        table.evaluate(near_end),
        range_reduce_taylor_exp::<F10, 10>(edge_sample)
    );

    let pdf_table = PDFLinearInterpLookupTable::<F10>::new(
        FixedDecimal::<F10>::from_i128(-1),
        FixedDecimal::<F10>::from_i128(1),
        FixedDecimal::<F10>::from_str("0.25").unwrap(),
    );
    assert!(matches!(
        pdf_table.try_evaluate(FixedDecimal::<F10>::from_i128(3)),
        Err(FixedFastError::OutOfRange(3))
    ));
    assert!(matches!(
        pdf_table.try_evaluate(FixedDecimal::<F10>::from_i128(1)),
        Err(FixedFastError::OutOfRange(1))
    ));
    // The strict path substitutes zero outside the domain instead.
    assert_eq!(
        pdf_table.evaluate(FixedDecimal::<F10>::from_i128(3)),
        FixedDecimal::<F10>::zero()
    );

    // The cumulative table saturates to one at and above its end instead.
    let cdf_table = CDFLinearInterpLookupTable::<F10>::new(
        FixedDecimal::<F10>::from_i128(2),
        FixedDecimal::<F10>::from_str("0.5").unwrap(),
    );
    let one = FixedDecimal::<F10>::one();
    assert_eq!(cdf_table.evaluate(FixedDecimal::<F10>::from_i128(2)), one);
    assert_eq!(
        cdf_table.try_evaluate(FixedDecimal::<F10>::from_i128(2)).unwrap(),
        one
    );
}
