use std::cmp::Ordering;

use nanvm_lib::big_int::{BigInt, Sign};
use nanvm_lib::big_uint::BigUint;

#[test]
fn big_int_test_ord() {
    let a = BigInt::from_u64(1);
    let b = BigInt::from_u64(1);
    assert_eq!(a.cmp(&b), Ordering::Equal);

    let a = BigInt::from_u64(1);
    let b = BigInt::from_u64(2);
    assert_eq!(a.cmp(&b), Ordering::Less);

    let a = BigInt::from_u64(1);
    let b = BigInt::from_i64(-2);
    assert_eq!(a.cmp(&b), Ordering::Greater);

    let a = BigInt { sign: Sign::Positive, value: BigUint { value: vec![1, 2] } };
    let b = BigInt { sign: Sign::Positive, value: BigUint { value: vec![2, 1] } };
    assert_eq!(a.cmp(&b), Ordering::Greater);
}

#[test]
fn test_add_same_sign() {
    let a = BigInt::from_u64(1);
    let b = BigInt::from_u64(2);
    let result = &a + &b;
    assert_eq!(&result, &BigInt::from_u64(3));

    let a = BigInt::from_i64(-1);
    let b = BigInt::from_i64(-2);
    let result = &a + &b;
    assert_eq!(&result, &BigInt::from_i64(-3));

    let a = BigInt::from_u64(1);
    let b = BigInt { sign: Sign::Positive, value: BigUint { value: vec![2, 4] } };
    let result = &a + &b;
    assert_eq!(
        &result,
        &BigInt { sign: Sign::Positive, value: BigUint { value: vec![3, 4] } }
    );

    let a = BigInt::from_u64(1 << 63);
    let b = BigInt::from_u64(1 << 63);
    let result = &a + &b;
    assert_eq!(
        &result,
        &BigInt { sign: Sign::Positive, value: BigUint { value: vec![0, 1] } }
    );
}

#[test]
fn test_add_different_sign() {
    let a = BigInt::from_u64(1 << 63);
    let b = BigInt { sign: Sign::Negative, value: BigUint { value: vec![1 << 63] } };
    let result = &a + &b;
    assert_eq!(&result, &BigInt::zero());

    let a = BigInt::from_u64(3);
    let b = BigInt::from_i64(-2);
    let result = &a + &b;
    assert_eq!(&result, &BigInt::from_u64(1));
    let result = &b + &a;
    assert_eq!(&result, &BigInt::from_u64(1));

    let a = BigInt { sign: Sign::Positive, value: BigUint { value: vec![0, 1] } };
    let b = BigInt::from_i64(-1);
    let result = &a + &b;
    assert_eq!(&result, &BigInt::from_u64(u64::MAX));
}

#[test]
fn big_int_test_add_overflow() {
    let a = BigInt { sign: Sign::Positive, value: BigUint { value: vec![u64::MAX, 0, 1] } };
    let b = BigInt { sign: Sign::Positive, value: BigUint { value: vec![u64::MAX, u64::MAX] } };
    let result = &a + &b;
    assert_eq!(
        &result,
        &BigInt { sign: Sign::Positive, value: BigUint { value: vec![u64::MAX - 1, 0, 2] } }
    );
    let result = &b + &a;
    assert_eq!(
        &result,
        &BigInt { sign: Sign::Positive, value: BigUint { value: vec![u64::MAX - 1, 0, 2] } }
    );
}

#[test]
fn test_sub_same_sign() {
    let a = BigInt::from_u64(1 << 63);
    let b = BigInt::from_u64(1 << 63);
    let result = a - b;
    assert_eq!(&result, &BigInt::zero());

    let a = BigInt::from_u64(3);
    let b = BigInt::from_u64(2);
    let result = a.clone() - b.clone();
    assert_eq!(&result, &BigInt::from_u64(1));
    let result = b - a;
    assert_eq!(&result, &BigInt::from_i64(-1));

    let a = BigInt { sign: Sign::Positive, value: BigUint { value: vec![0, 1] } };
    let b = BigInt::from_u64(1);
    let result = a - b;
    assert_eq!(&result, &BigInt::from_u64(u64::MAX));
}

#[test]
fn test_sub_different_sign() {
    let a = BigInt::from_u64(1);
    let b = BigInt::from_i64(-2);
    let result = a - b;
    assert_eq!(&result, &BigInt::from_u64(3));

    let a = BigInt::from_i64(-1);
    let b = BigInt::from_u64(2);
    let result = a - b;
    assert_eq!(&result, &BigInt::from_i64(-3));

    let a = BigInt::from_u64(1);
    let b = BigInt { sign: Sign::Negative, value: BigUint { value: vec![2, 4] } };
    let result = a - b;
    assert_eq!(
        &result,
        &BigInt { sign: Sign::Positive, value: BigUint { value: vec![3, 4] } }
    );

    let a = BigInt::from_u64(1 << 63);
    let b = BigInt { sign: Sign::Negative, value: BigUint { value: vec![1 << 63] } };
    let result = a - b;
    assert_eq!(
        &result,
        &BigInt { sign: Sign::Positive, value: BigUint { value: vec![0, 1] } }
    );
}

#[test]
fn big_int_test_mul() {
    let a = BigInt::from_u64(1);
    let result = &a * &BigInt::zero();
    assert_eq!(&result, &BigInt::zero());
    let result = &BigInt::zero() * &a;
    assert_eq!(&result, &BigInt::zero());

    let a = BigInt::from_i64(-1);
    let result = &a * &BigInt::zero();
    assert_eq!(&result, &BigInt::zero());
    let result = &BigInt::zero() * &a;
    assert_eq!(&result, &BigInt::zero());

    let a = BigInt::from_i64(-1);
    let b = BigInt::from_i64(-1);
    let result = &a * &b;
    assert_eq!(&result, &BigInt::from_u64(1));

    let a = BigInt { sign: Sign::Negative, value: BigUint { value: vec![1, 2, 3, 4] } };
    let b = BigInt { sign: Sign::Negative, value: BigUint { value: vec![5, 6, 7] } };
    let result = &a * &b;
    assert_eq!(
        &result,
        &BigInt { sign: Sign::Positive, value: BigUint { value: vec![5, 16, 34, 52, 45, 28] } },
    );
    let result = &b * &a;
    assert_eq!(
        &result,
        &BigInt { sign: Sign::Positive, value: BigUint { value: vec![5, 16, 34, 52, 45, 28] } },
    );

    let a = BigInt { sign: Sign::Negative, value: BigUint { value: vec![u64::MAX] } };
    let b = BigInt { sign: Sign::Negative, value: BigUint { value: vec![u64::MAX] } };
    let result = &a * &b;
    assert_eq!(
        &result,
        &BigInt { sign: Sign::Positive, value: BigUint { value: vec![1, u64::MAX - 1] } },
    );
    let result = &b * &a;
    assert_eq!(
        &result,
        &BigInt { sign: Sign::Positive, value: BigUint { value: vec![1, u64::MAX - 1] } },
    );

    let a = BigInt {
        sign: Sign::Negative,
        value: BigUint { value: vec![u64::MAX, u64::MAX, u64::MAX] },
    };
    let b = BigInt { sign: Sign::Negative, value: BigUint { value: vec![u64::MAX] } };
    let result = &a * &b;
    assert_eq!(
        &result,
        &BigInt {
            sign: Sign::Positive,
            value: BigUint { value: vec![1, u64::MAX, u64::MAX, u64::MAX - 1] }
        },
    );
    let result = &b * &a;
    assert_eq!(
        &result,
        &BigInt {
            sign: Sign::Positive,
            value: BigUint { value: vec![1, u64::MAX, u64::MAX, u64::MAX - 1] }
        },
    );
}

#[test]
fn big_int_test_div_simple() {
    let a = BigInt::from_u64(2);
    let b = BigInt::from_u64(7);
    let result = &a / &b;
    assert_eq!(&result, &BigInt::zero());

    let a = BigInt::from_u64(7);
    let result = &a / &a;
    assert_eq!(&result, &BigInt::from_u64(1));

    let a = BigInt::from_u64(7);
    let b = BigInt::from_u64(2);
    let result = &a / &b;
    assert_eq!(&result, &BigInt::from_u64(3));

    let a = BigInt { sign: Sign::Positive, value: BigUint { value: vec![6, 8] } };
    let b = BigInt::from_u64(2);
    let result = &a / &b;
    assert_eq!(
        &result,
        &BigInt { sign: Sign::Positive, value: BigUint { value: vec![3, 4] } }
    );

    let a = BigInt { sign: Sign::Positive, value: BigUint { value: vec![4, 7] } };
    let b = BigInt::from_u64(2);
    let result = &a / &b;
    assert_eq!(
        &result,
        &BigInt { sign: Sign::Positive, value: BigUint { value: vec![(1 << 63) + 2, 3] } }
    );
}

#[test]
fn negation_abs_and_signed_division() {
    assert_eq!(-BigInt::from_u64(5), BigInt::from_i64(-5));
    assert_eq!(-BigInt::zero(), BigInt::zero());
    assert_eq!(BigInt::from_i64(-5).abs(), BigInt::from_u64(5));
    assert_eq!(BigInt::new(Sign::Negative, BigUint::one()), BigInt::from_i64(-1));
    // the quotient keeps the sign of the product of the signs, even when it is zero
    let q = &BigInt::from_i64(-2) / &BigInt::from_u64(7);
    assert_eq!(q, BigInt { sign: Sign::Negative, value: BigUint::zero() });
    let (q, r) = BigInt::from_i64(-7).div_mod(&BigInt::from_u64(2));
    assert_eq!(q, BigInt::from_i64(-3));
    assert_eq!(r, BigInt::from_i64(-1));
    // two negative numbers are ordered as their magnitudes
    assert_eq!(BigInt::from_i64(-5).cmp(&BigInt::from_i64(-3)), Ordering::Greater);
}

#[test]
fn order_of_values_unless_both_negative() {
    let minus_three = BigInt::from_i64(-3);
    let minus_five = BigInt::from_i64(-5);
    let five = BigInt::from_i64(5);
    let zero = BigInt::from_i64(0);
    assert_eq!(minus_three.cmp(&five), Ordering::Less);
    assert_eq!(five.cmp(&minus_three), Ordering::Greater);
    assert_eq!(zero.cmp(&minus_five), Ordering::Greater);
    assert_eq!(five.cmp(&BigInt::from_u64(5)), Ordering::Equal);
    // two negative numbers are ordered as their magnitudes are
    assert_eq!(minus_five.cmp(&minus_three), Ordering::Greater);
}

#[test]
fn add_of_magnitudes_with_zero_digits() {
    // zero written with one digit, as `from_u64(0)` gives it
    let zero = BigInt::from_u64(0);
    let five = BigInt::from_i64(5);
    let minus_five = BigInt::from_i64(-5);
    assert_eq!(&zero + &five, five);
    let r = &zero + &minus_five;
    assert_eq!(r.sign, Sign::Negative);
    assert_eq!(r.value, BigUint { value: vec![5] });
    let r = BigInt::sub(&zero, &five);
    assert_eq!(r.sign, Sign::Negative);
    assert_eq!(r.value, BigUint { value: vec![5] });
}
