use bigcalc::big_num::BigNum;

#[test]
fn test_negate_positive() {
    let num = BigNum::from(vec![1, 2, 3], true);
    let expected = BigNum::from(vec![1, 2, 3], false);
    assert_eq!(num.negate(), expected);
    assert_eq!(num.negate(), expected);
}

#[test]
fn test_negate_negative() {
    let num = BigNum::from(vec![1, 2, 3], false);
    let expected = BigNum::from(vec![1, 2, 3], true);
    assert_eq!(num.negate(), expected);
    assert_eq!(num.negate(), expected);
}

#[test]
fn test_add_positive_positive() {
    let num1 = BigNum::from(vec![1, 2, 3], true);
    let num2 = BigNum::from(vec![4, 5, 6], true);
    let expected = BigNum::from(vec![5, 7, 9], true);
    assert_eq!(num1.add(&num2), expected);
}

#[test]
fn test_add_positive_negative() {
    let num1 = BigNum::from(vec![1, 2, 3], true);
    let num2 = BigNum::from(vec![4, 5, 6], false);
    let expected = BigNum::from(vec![3, 3, 3], false);
    assert_eq!(num1.add(&num2), expected);

    let num3 = BigNum::from(vec![6, 7, 8], true);
    let num4 = BigNum::from(vec![4, 5, 6], false);
    let expected = BigNum::from(vec![2, 2, 2], true);
    assert_eq!(num3.add(&num4), expected);
}

#[test]
fn test_add_negative_positive() {
    let num1 = BigNum::from(vec![1, 2, 3], false);
    let num2 = BigNum::from(vec![4, 5, 6], true);
    let expected = BigNum::from(vec![3, 3, 3], true);
    assert_eq!(num1.add(&num2), expected);

    let num3 = BigNum::from(vec![6, 7, 8], false);
    let num4 = BigNum::from(vec![4, 5, 6], true);
    let expected = BigNum::from(vec![2, 2, 2], false);
    assert_eq!(num3.add(&num4), expected);
}

#[test]
fn test_add_negative_negative() {
    let num1 = BigNum::from(vec![1, 2, 3], false);
    let num2 = BigNum::from(vec![4, 5, 6], false);
    let expected = BigNum::from(vec![5, 7, 9], false);
    assert_eq!(num1.add(&num2), expected);
}

#[test]
fn test_add_assign_positive_positive() {
    let mut num1 = BigNum::from(vec![1, 2, 3], true);
    let num2 = BigNum::from(vec![4, 5, 6], true);
    let expected = BigNum::from(vec![5, 7, 9], true);
    num1 = num1.add(&num2);
    assert_eq!(num1, expected);
}

#[test]
fn test_add_assign_positive_negative() {
    let mut num1 = BigNum::from(vec![1, 2, 3], true);
    let num2 = BigNum::from(vec![4, 5, 6], false);
    let expected = BigNum::from(vec![3, 3, 3], false);
    num1 = num1.add(&num2);
    assert_eq!(num1, expected);

    let mut num3 = BigNum::from(vec![6, 7, 8], true);
    let num4 = BigNum::from(vec![4, 5, 6], false);
    let expected = BigNum::from(vec![2, 2, 2], true);
    num3 = num3.add(&num4);
    assert_eq!(num3, expected);
}

#[test]
fn test_add_assign_negative_positive() {
    let mut num1 = BigNum::from(vec![1, 2, 3], false);
    let num2 = BigNum::from(vec![4, 5, 6], true);
    let expected = BigNum::from(vec![3, 3, 3], true);
    num1 = num1.add(&num2);
    assert_eq!(num1, expected);

    let mut num3 = BigNum::from(vec![6, 7, 8], false);
    let num4 = BigNum::from(vec![4, 5, 6], true);
    let expected = BigNum::from(vec![2, 2, 2], false);
    num3 = num3.add(&num4);
    assert_eq!(num3, expected);
}

#[test]
fn test_add_assign_negative_negative() {
    let mut num1 = BigNum::from(vec![1, 2, 3], false);
    let num2 = BigNum::from(vec![4, 5, 6], false);
    let expected = BigNum::from(vec![5, 7, 9], false);
    num1 = num1.add(&num2);
    assert_eq!(num1, expected);
}

#[test]
fn test_mul_positive_positive() {
    let num1 = BigNum::from(vec![1, 2, 3], true);
    let num2 = BigNum::from(vec![4, 5, 6], true);
    let expected = BigNum::from(vec![5, 6, 0, 8, 8], true);
    assert_eq!(num1.mul(&num2), expected);
}

#[test]
fn test_mul_positive_negative() {
    let num1 = BigNum::from(vec![1, 2, 3], true);
    let num2 = BigNum::from(vec![4, 5, 6], false);
    let expected = BigNum::from(vec![5, 6, 0, 8, 8], false);
    assert_eq!(num1.mul(&num2), expected);

    let num3 = BigNum::from(vec![6, 7, 8], true);
    let num4 = BigNum::from(vec![4, 5, 6], false);
    let expected = BigNum::from(vec![3, 0, 9, 1, 6, 8], false);
    assert_eq!(num3.mul(&num4), expected);
}

#[test]
fn test_mul_negative_positive() {
    let num1 = BigNum::from(vec![1, 2, 3], false);
    let num2 = BigNum::from(vec![4, 5, 6], true);
    let expected = BigNum::from(vec![5, 6, 0, 8, 8], false);
    assert_eq!(num1.mul(&num2), expected);

    let num3 = BigNum::from(vec![6, 7, 8], false);
    let num4 = BigNum::from(vec![4, 5, 6], true);
    let expected = BigNum::from(vec![3, 0, 9, 1, 6, 8], false);
    assert_eq!(num3.mul(&num4), expected);
}

#[test]
fn test_mul_negative_negative() {
    let num1 = BigNum::from(vec![1, 2, 3], false);
    let num2 = BigNum::from(vec![4, 5, 6], false);
    let expected = BigNum::from(vec![5, 6, 0, 8, 8], true);
    assert_eq!(num1.mul(&num2), expected);
}

#[test]
fn test_mul_zero() {
    let num1 = BigNum::from(vec![1, 2, 3], true);
    let num2 = BigNum::zero();
    let expected = BigNum::zero();
    assert_eq!(num1.mul(&num2), expected);
}

#[test]
fn big_num_test_eq() {
    let num1 = BigNum::from(vec![1, 2, 3], true);
    let num2 = BigNum::from(vec![1, 2, 3], true);
    assert_eq!(num1, num2);
}

#[test]
fn test_ne() {
    let num1 = BigNum::from(vec![1, 2, 3], true);
    let num2 = BigNum::from(vec![1, 2, 4], true);
    assert_ne!(num1, num2);
}

#[test]
fn test_lt() {
    let num1 = BigNum::from(vec![1, 2, 3], true);
    let num2 = BigNum::from(vec![1, 2, 4], true);
    assert!(num1 < num2);
}

#[test]
fn test_le() {
    let num1 = BigNum::from(vec![1, 2, 3], true);
    let num2 = BigNum::from(vec![1, 2, 4], true);
    assert!(num1 <= num2);
    let num3 = BigNum::from(vec![1, 2, 3], true);
    let num4 = BigNum::from(vec![1, 2, 3], true);
    assert!(num3 <= num4);
}

#[test]
fn test_gt() {
    let num1 = BigNum::from(vec![1, 2, 4], true);
    let num2 = BigNum::from(vec![1, 2, 3], true);
    assert!(num1 > num2);
}

#[test]
fn test_ge() {
    let num1 = BigNum::from(vec![1, 2, 4], true);
    let num2 = BigNum::from(vec![1, 2, 3], true);
    assert!(num1 >= num2);
    let num3 = BigNum::from(vec![1, 2, 3], true);
    let num4 = BigNum::from(vec![1, 2, 3], true);
    assert!(num3 >= num4);
}

#[test]
fn test_div_positive_positive() {
    let num1 = BigNum::from(vec![1, 2, 3], true);
    let num2 = BigNum::from(vec![4, 5], true);
    let expected = BigNum::from(vec![2], true);
    assert_eq!(num1.div(&num2).unwrap(), expected);
}

#[test]
fn test_div_negative_positive() {
    let num1 = BigNum::from(vec![1, 2, 3], false);
    let num2 = BigNum::from(vec![4, 5], true);
    let expected = BigNum::from(vec![2], false);
    assert_eq!(num1.div(&num2).unwrap(), expected);
}

#[test]
fn test_div_positive_negative() {
    let num1 = BigNum::from(vec![1, 2, 3], true);
    let num2 = BigNum::from(vec![4, 5], false);
    let expected = BigNum::from(vec![2], false);
    assert_eq!(num1.div(&num2).unwrap(), expected);
}

#[test]
fn test_div_negative_negative() {
    let num1 = BigNum::from(vec![1, 2, 3], false);
    let num2 = BigNum::from(vec![4, 5], false);
    let expected = BigNum::from(vec![2], true);
    assert_eq!(num1.div(&num2).unwrap(), expected);
}

#[test]
fn test_rem_positive_positive() {
    let num1 = BigNum::from(vec![5], true);
    let num2 = BigNum::from(vec![3], true);
    let expected = BigNum::from(vec![2], true);
    assert_eq!(num1.rem(&num2).unwrap(), expected);
}

#[test]
fn test_rem_negative_positive() {
    let num1 = BigNum::from(vec![1, 2, 3], false);
    let num2 = BigNum::from(vec![4, 5], true);
    let expected = BigNum::from(vec![3, 3], false);
    assert_eq!(num1.rem(&num2).unwrap(), expected);
}

#[test]
fn test_rem_positive_negative() {
    let num1 = BigNum::from(vec![1, 2, 3], true);
    let num2 = BigNum::from(vec![4, 5], false);
    let expected = BigNum::from(vec![3, 3], true);
    assert_eq!(num1.rem(&num2).unwrap(), expected);
}

#[test]
fn test_rem_negative_negative() {
    let num1 = BigNum::from(vec![1, 2, 3], false);
    let num2 = BigNum::from(vec![4, 5], false);
    let expected = BigNum::from(vec![3, 3], false);
    assert_eq!(num1.rem(&num2).unwrap(), expected);
}

#[test]
fn test_gcd_normal() {
    let num1 = BigNum::from(vec![1, 2, 3], true);
    let num2 = BigNum::from(vec![6, 0], true);
    let expected = BigNum::from(vec![3], true);
    assert_eq!(num1.gcd(&num2).unwrap(), expected);
}

#[test]
fn test_gcd_negative() {
    let num1 = BigNum::from(vec![1, 2, 3], false);
    let num2 = BigNum::from(vec![6, 0], true);
    let expected = BigNum::from(vec![3], true);
    assert_eq!(num1.gcd(&num2).unwrap(), expected);
}

#[test]
fn test_gcd_coprime() {
    let num1 = BigNum::from(vec![1, 0], true);
    let num2 = BigNum::from(vec![3], true);
    let expected = BigNum::from(vec![1], true);
    assert_eq!(num1.gcd(&num2).unwrap(), expected);

    let num3 = BigNum::from(vec![1, 0], false);
    let num4 = BigNum::from(vec![3], true);
    let expected = BigNum::from(vec![1], true);
    assert_eq!(num3.gcd(&num4).unwrap(), expected);
}
