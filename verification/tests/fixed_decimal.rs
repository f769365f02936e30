use fixed_fast::{FixedDecimal, FixedPrecision};

const ONE_SCALED_INTEGER: i128 = 1000000000;

#[derive(Debug, PartialEq, Eq, PartialOrd, Ord, Clone, Copy)]
struct F9;
#[derive(Debug, PartialEq, Eq, PartialOrd, Ord, Clone, Copy)]
struct F18;

impl FixedPrecision for F9 {
    const PRECISION: u32 = 9;
}

impl FixedPrecision for F18 {
    const PRECISION: u32 = 18;
}

fn to_f64(x: FixedDecimal<F9>) -> f64 {
    x.to_raw() as f64 / 1e9
}

#[test]
fn mul() {
    let a = FixedDecimal::<F9>::from_i128(1);
    let b = FixedDecimal::<F9>::from_i128(2);
    let c = a.mul(b);
    assert_eq!(c.to_i128(), 2);
    assert_eq!(c.mul_i128(2), FixedDecimal::<F9>::from_i128(4));
    let a = FixedDecimal::<F9>::from_i128(1325235);
    let b = FixedDecimal::<F9>::from_i128(3123123);
    let c = a.mul(b);
    assert_eq!(to_f64(c), 4138871908905.0);
    let a = FixedDecimal::<F9>::from_i128(1325235);
    let b = 3123123;
    let c = a.mul(FixedDecimal::<F9>::from_i128(b));
    assert_eq!(to_f64(c), 4138871908905.0);
    let d = FixedDecimal::<F9>::from_i128(b).mul(a);
    assert_eq!(to_f64(d), 4138871908905.0);
}

#[test]
fn div() {
    let a = FixedDecimal::<F9>::from_i128(1);
    let b = FixedDecimal::<F9>::from_i128(2);
    let c = a.div(b);
    assert_eq!(c.to_i128(), 0);
    let a = FixedDecimal::<F9>::from_i128(5);
    let b = FixedDecimal::<F9>::from_i128(3);
    let c = a.div(b);
    assert_eq!(c.to_i128(), 1);
    let a = FixedDecimal::<F9>::from_i128(1325235);
    let b = FixedDecimal::<F9>::from_i128(3123123);
    let c = a.div(b);
    assert_eq!(to_f64(c), 0.424330069);
    let a = FixedDecimal::<F9>::from_i128(1325235);
    let b = 3123123;
    let c = a.div(FixedDecimal::<F9>::from_i128(b));
    assert_eq!(to_f64(c), 0.424330069);
    let d = FixedDecimal::<F9>::from_i128(b).div(a);
    assert_eq!(to_f64(d), 2.356655989);
}

#[test]
fn add() {
    let a = FixedDecimal::<F9>::from_i128(1);
    let b = FixedDecimal::<F9>::from_i128(2);
    let c = a.add(b);
    assert_eq!(c.to_i128(), 3);
    let a = FixedDecimal::<F9>::from_i128(1325235);
    let b = FixedDecimal::<F9>::from_i128(3123123);
    let c = a.add(b);
    assert_eq!(to_f64(c), 4448358.0);
    let a = FixedDecimal::<F9>::from_i128(1325235);
    let b = 3123123;
    let c = a.add_i128(b);
    assert_eq!(to_f64(c), 4448358.0);
    let d = FixedDecimal::<F9>::from_i128(b).add(a);
    assert_eq!(to_f64(d), 4448358.0);
}

#[test]
fn sub() {
    let a = FixedDecimal::<F9>::from_i128(1);
    let b = FixedDecimal::<F9>::from_i128(2);
    let c = a.sub(b);
    assert_eq!(c.to_i128(), -1);
    let a = FixedDecimal::<F9>::from_i128(1325235);
    let b = FixedDecimal::<F9>::from_i128(3123123);
    let c = a.sub(b);
    assert_eq!(to_f64(c), -1797888.0);
    let a = FixedDecimal::<F9>::from_i128(1325235);
    let b = 3123123;
    let c = a.sub_i128(b);
    assert_eq!(to_f64(c), -1797888.0);
    let d = FixedDecimal::<F9>::from_i128(b).sub(a);
    assert_eq!(to_f64(d), 1797888.0);
}

#[test]
fn mul_assign() {
    let mut a = FixedDecimal::<F9>::from_i128(1);
    let b = FixedDecimal::<F9>::from_i128(2);
    a = a.mul(b);
    assert_eq!(a.to_i128(), 2);
    let mut a = FixedDecimal::<F9>::from_i128(1325235);
    let b = FixedDecimal::<F9>::from_i128(3123123);
    a = a.mul(b);
    assert_eq!(to_f64(a), 4138871908905.0);
    let mut a = FixedDecimal::<F9>::from_i128(1325235);
    let b = 3123123;
    a = a.mul_i128(b);
    assert_eq!(to_f64(a), 4138871908905.0);
}

#[test]
fn div_assign() {
    let mut a = FixedDecimal::<F9>::from_i128(1);
    let b = FixedDecimal::<F9>::from_i128(2);
    a = a.div(b);
    assert_eq!(to_f64(a), 0.5);
    let mut a = FixedDecimal::<F9>::from_i128(1325235);
    let b = FixedDecimal::<F9>::from_i128(3123123);
    a = a.div(b);
    assert_eq!(to_f64(a), 0.424330069);
    let mut a = FixedDecimal::<F9>::from_i128(1325235);
    let b = 3123123;
    a = a.div_i128(b);
    assert_eq!(to_f64(a), 0.424330069);
}

#[test]
fn add_assign() {
    let mut a = FixedDecimal::<F9>::from_i128(1);
    let b = FixedDecimal::<F9>::from_i128(2);
    a = a.add(b);
    assert_eq!(to_f64(a), 3.0);
    let mut a = FixedDecimal::<F9>::from_i128(1325235);
    let b = FixedDecimal::<F9>::from_i128(3123123);
    a = a.add(b);
    assert_eq!(to_f64(a), 4448358.0);
    let mut a = FixedDecimal::<F9>::from_i128(1325235);
    let b = 3123123;
    a = a.add_i128(b);
    let _ = a;
}

#[test]
fn neg() {
    let a = FixedDecimal::<F9>::from_i128(1);
    let b = a.neg();
    assert_eq!(b.to_i128(), -1);
}

#[test]
fn sub_assign() {
    let mut a = FixedDecimal::<F9>::from_i128(1);
    let b = FixedDecimal::<F9>::from_i128(2);
    a = a.sub(b);
    assert_eq!(a.to_i128(), -1);
    let mut a = FixedDecimal::<F9>::from_i128(1325235);
    let b = FixedDecimal::<F9>::from_i128(3123123);
    a = a.sub(b);
    assert_eq!(to_f64(a), -1797888.0);
    let a = FixedDecimal::<F9>::from_i128(1325235);
    let b = 3123123;
    let _ = (a, b);
}

#[test]
fn div_as_float() {
    let a = FixedDecimal::<F9>::from_i128(1);
    let b = FixedDecimal::<F9>::from_i128(2);
    let c = a.div(b);
    assert_eq!(to_f64(c), 0.5);
    let a = FixedDecimal::<F9>::from_i128(5);
    let b = FixedDecimal::<F9>::from_i128(3);
    let c = a.div(b);
    assert_eq!(to_f64(c), 1.666666666);
    let a = FixedDecimal::<F9>::from_i128(1325235);
    let b = FixedDecimal::<F9>::from_i128(3123123);
    let c = a.div(b);
    assert_eq!(to_f64(c), 0.424330069);
}

#[test]
fn squared() {
    let a = FixedDecimal::<F9>::from_i128(2);
    let b = a.squared();
    assert_eq!(b.to_i128(), 4);
    let a = FixedDecimal::<F9>::from_i128(1325);
    let b = a.squared();
    assert_eq!(to_f64(b), 1755625.0);
}

#[test]
fn scale() {
    let a = FixedDecimal::<F9>::scale();
    assert_eq!(a, ONE_SCALED_INTEGER);
}

#[test]
fn to_integer() {
    let a = FixedDecimal::<F9>::from_i128(1);
    assert_eq!(a.to_i128(), 1);
}

#[test]
fn sum_vec() {
    let vec = vec![
        FixedDecimal::<F9>::from_i128(1),
        FixedDecimal::<F9>::from_i128(2),
        FixedDecimal::<F9>::from_i128(3),
    ];
    let mut sum = FixedDecimal::<F9>::from_raw(0);
    for x in vec.iter() {
        sum = sum.add(*x);
    }
    assert_eq!(sum, FixedDecimal::<F9>::from_i128(6));
}

#[test]
fn ordering() {
    let a = FixedDecimal::<F9>::from_i128(1);
    let b = FixedDecimal::<F9>::from_i128(2);
    let c = FixedDecimal::<F9>::from_i128(1);

    // Test less than/greater than
    assert!(a < b);
    assert!(b > a);

    // Test equality
    assert!(a == c);
    assert!(!(a != c));

    // Test comparison with integers
    assert!(a < FixedDecimal::<F9>::from_i128(3));
    assert!(b > FixedDecimal::<F9>::from_i128(1));
    assert!(a == FixedDecimal::<F9>::from_i128(1));

    // Test min/max
    assert_eq!(a.min(b), a);
    assert_eq!(a.max(b), b);

    // Test sorting
    let mut vec = vec![b, a, c];
    vec.sort();
    assert_eq!(vec, vec![a, c, b]);
}

#[test]
fn ln2() {
    let a = FixedDecimal::<F18>::ln2();
    assert_eq!(a.to_string(), "0.693147180559945309");
}

#[test]
fn e() {
    let a = FixedDecimal::<F18>::e();
    assert_eq!(a.to_string(), "2.718281828459045235");
}

#[test]
fn pi() {
    let a = FixedDecimal::<F18>::pi();
    assert_eq!(a.to_string(), "3.141592653589793238");
}

#[test]
fn negatives() {
    let a = FixedDecimal::<F18>::from_i128(-10);
    assert_eq!(a.to_string(), "-10");
    let b = a.div_i128(2);
    assert_eq!(b.to_string(), "-5");
    let c = FixedDecimal::<F18>::from_str("-12.231231").unwrap();
    assert_eq!(c.to_string(), "-12.231231");
}
