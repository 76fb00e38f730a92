use bigcalc::big_num::BigNum;
use bigcalc::frac::Frac;

fn num(text: &str) -> BigNum {
    BigNum::from_str(text).unwrap()
}

#[test]
fn test_simplify() {
    let frac = Frac::new(num("2"), num("4")).unwrap();
    assert_eq!(frac.numerator(), &num("1"));
    assert_eq!(frac.denominator(), &num("2"));
}

#[test]
fn test_simplify_negative_numerator() {
    let frac = Frac::new(num("-2"), num("4")).unwrap();
    assert_eq!(frac.numerator(), &num("-1"));
    assert_eq!(frac.denominator(), &num("2"));
}

#[test]
fn test_simplify_negative_denominator() {
    let frac = Frac::new(num("2"), num("-4")).unwrap();
    assert_eq!(frac.numerator(), &num("-1"));
    assert_eq!(frac.denominator(), &num("2"));

    let frac = Frac::new(num("-2"), num("-4")).unwrap();
    assert_eq!(frac.numerator(), &num("1"));
    assert_eq!(frac.denominator(), &num("2"));
}

#[test]
fn test_inverse() {
    let frac = Frac::new(num("2"), num("4")).unwrap();
    let inverse = frac.inverse().unwrap();
    assert_eq!(inverse.numerator(), &num("2"));
    assert_eq!(inverse.denominator(), &num("1"));
}

#[test]
fn test_display() {
    let frac = Frac::new(num("2"), num("4")).unwrap();
    assert_eq!(frac.to_string(), "1/2");
}

#[test]
fn test_from_str() {
    let frac = Frac::from_str("2/4").unwrap();
    assert_eq!(frac.numerator(), &num("1"));
    assert_eq!(frac.denominator(), &num("2"));
}

#[test]
fn test_from_str_invalid_format() {
    let frac = Frac::from_str("2");
    assert_eq!(
        frac.err().unwrap().message(),
        "Invalid fraction format. Expected format: numerator/denominator"
    );
}

#[test]
fn test_from_str_invalid_denominator() {
    let frac = Frac::from_str("2/0");
    assert_eq!(frac.err().unwrap().message(), "Denominator cannot be zero");
}

#[test]
fn frac_test_eq() {
    let frac1 = Frac::new(num("2"), num("4")).unwrap();
    let frac2 = Frac::new(num("1"), num("2")).unwrap();
    assert_eq!(frac1, frac2);
}

#[test]
fn test_neg() {
    let frac = Frac::new(num("2"), num("4")).unwrap();
    let neg = frac.neg();
    assert_eq!(neg.numerator(), &num("-1"));
    assert_eq!(neg.denominator(), &num("2"));
}

#[test]
fn test_add() {
    let frac1 = Frac::new(num("1"), num("2")).unwrap();
    let frac2 = Frac::new(num("1"), num("3")).unwrap();
    let sum = frac1.add(&frac2);
    assert_eq!(sum.numerator(), &num("5"));
    assert_eq!(sum.denominator(), &num("6"));
}

#[test]
fn test_add_assign() {
    let mut frac1 = Frac::new(num("1"), num("2")).unwrap();
    let frac2 = Frac::new(num("1"), num("3")).unwrap();
    frac1 = frac1.add(&frac2);
    assert_eq!(frac1.numerator(), &num("5"));
    assert_eq!(frac1.denominator(), &num("6"));
}

#[test]
fn test_sub() {
    let frac1 = Frac::new(num("1"), num("2")).unwrap();
    let frac2 = Frac::new(num("1"), num("3")).unwrap();
    let diff = frac2.sub(&frac1);
    assert_eq!(diff.numerator(), &num("-1"));
    assert_eq!(diff.denominator(), &num("6"));
}

#[test]
fn test_sub_assign() {
    let mut frac1 = Frac::new(num("1"), num("2")).unwrap();
    let frac2 = Frac::new(num("1"), num("3")).unwrap();
    frac1 = frac1.sub(&frac2);
    assert_eq!(frac1.numerator(), &num("1"));
    assert_eq!(frac1.denominator(), &num("6"));
}

#[test]
fn test_mul() {
    let frac1 = Frac::new(num("1"), num("2")).unwrap();
    let frac2 = Frac::new(num("2"), num("3")).unwrap();
    let product = frac1.mul(&frac2);
    assert_eq!(product.numerator(), &num("1"));
    assert_eq!(product.denominator(), &num("3"));
}

#[test]
fn test_mul_assign() {
    let mut frac1 = Frac::new(num("2"), num("3")).unwrap();
    let frac2 = Frac::new(num("2"), num("36")).unwrap();
    frac1 = frac1.mul(&frac2);
    assert_eq!(frac1.numerator(), &num("1"));
    assert_eq!(frac1.denominator(), &num("27"));
}

#[test]
fn test_div() {
    let frac1 = Frac::new(num("1"), num("2")).unwrap();
    let frac2 = Frac::new(num("2"), num("3")).unwrap();
    let quotient = frac1.div(&frac2).unwrap();
    assert_eq!(quotient.numerator(), &num("3"));
    assert_eq!(quotient.denominator(), &num("4"));
}

#[test]
fn test_div_assign() {
    let mut frac1 = Frac::new(num("1"), num("2")).unwrap();
    let frac2 = Frac::new(num("2"), num("3")).unwrap();
    frac1 = frac1.div(&frac2).unwrap();
    assert_eq!(frac1.numerator(), &num("3"));
    assert_eq!(frac1.denominator(), &num("4"));
}
