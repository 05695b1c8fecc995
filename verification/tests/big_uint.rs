use std::cmp::Ordering;

use nanvm_lib::big_uint::BigUint;

#[test]
fn big_uint_test_ord() {
    let a = BigUint { value: vec![1] };
    let b = BigUint { value: vec![1] };
    assert_eq!(a.cmp(&b), Ordering::Equal);

    let a = BigUint { value: vec![1] };
    let b = BigUint { value: vec![2] };
    assert_eq!(a.cmp(&b), Ordering::Less);

    let a = BigUint { value: vec![2] };
    let b = BigUint { value: vec![1] };
    assert_eq!(a.cmp(&b), Ordering::Greater);

    let a = BigUint { value: vec![1, 2] };
    let b = BigUint { value: vec![2, 1] };
    assert_eq!(a.cmp(&b), Ordering::Greater);
}

#[test]
fn test_add() {
    let a = BigUint { value: vec![1] };
    let b = BigUint { value: vec![2] };
    let result = &a + &b;
    assert_eq!(&result, &BigUint { value: vec![3] });

    let a = BigUint { value: vec![1] };
    let b = BigUint { value: vec![2, 4] };
    let result = &a + &b;
    assert_eq!(&result, &BigUint { value: vec![3, 4] });

    let a = BigUint { value: vec![1 << 63] };
    let b = BigUint { value: vec![1 << 63] };
    let result = &a + &b;
    assert_eq!(&result, &BigUint { value: vec![0, 1] });
}

#[test]
fn big_uint_test_add_overflow() {
    let a = BigUint { value: vec![u64::MAX, 0, 1] };
    let b = BigUint { value: vec![u64::MAX, u64::MAX] };
    let result = &a + &b;
    assert_eq!(&result, &BigUint { value: vec![u64::MAX - 1, 0, 2] });
    let result = &b + &a;
    assert_eq!(&result, &BigUint { value: vec![u64::MAX - 1, 0, 2] });
}

#[test]
fn test_sub() {
    let a = BigUint { value: vec![1 << 63] };
    let b = BigUint { value: vec![1 << 63] };
    let result = &a - &b;
    assert_eq!(&result, &BigUint::zero());

    let a = BigUint { value: vec![3] };
    let b = BigUint { value: vec![2] };
    let result = &a - &b;
    assert_eq!(&result, &BigUint { value: vec![1] });
    let result = &b - &a;
    assert_eq!(&result, &BigUint::zero());

    let a = BigUint { value: vec![0, 1] };
    let b = BigUint { value: vec![1] };
    let result = &a - &b;
    assert_eq!(&result, &BigUint { value: vec![u64::MAX] });
}

#[test]
fn big_uint_test_mul() {
    let a = BigUint { value: vec![1] };
    let result = &a * &BigUint::zero();
    assert_eq!(&result, &BigUint::zero());
    let result = &BigUint::zero() * &a;
    assert_eq!(&result, &BigUint::zero());

    let a = BigUint { value: vec![1] };
    let result = &a * &a;
    assert_eq!(&result, &a);

    let a = BigUint { value: vec![1, 2, 3, 4] };
    let b = BigUint { value: vec![5, 6, 7] };
    let result = &a * &b;
    assert_eq!(&result, &BigUint { value: vec![5, 16, 34, 52, 45, 28] });
    let result = &b * &a;
    assert_eq!(&result, &BigUint { value: vec![5, 16, 34, 52, 45, 28] });

    let a = BigUint { value: vec![u64::MAX] };
    let b = BigUint { value: vec![u64::MAX] };
    let result = &a * &b;
    assert_eq!(&result, &BigUint { value: vec![1, u64::MAX - 1] });
    let result = &b * &a;
    assert_eq!(&result, &BigUint { value: vec![1, u64::MAX - 1] });

    let a = BigUint { value: vec![u64::MAX, u64::MAX, u64::MAX] };
    let b = BigUint { value: vec![u64::MAX] };
    let result = &a * &b;
    assert_eq!(&result, &BigUint { value: vec![1, u64::MAX, u64::MAX, u64::MAX - 1] });
    let result = &b * &a;
    assert_eq!(&result, &BigUint { value: vec![1, u64::MAX, u64::MAX, u64::MAX - 1] });
}

#[test]
fn big_uint_test_div_simple() {
    let a = BigUint { value: vec![2] };
    let b = BigUint { value: vec![7] };
    let result = &a / &b;
    assert_eq!(&result, &BigUint::zero());

    let a = BigUint { value: vec![7] };
    let result = &a / &a;
    assert_eq!(&result, &BigUint { value: vec![1] });

    let a = BigUint { value: vec![7] };
    let b = BigUint { value: vec![2] };
    let result = &a / &b;
    assert_eq!(&result, &BigUint { value: vec![3] });

    let a = BigUint { value: vec![6, 8] };
    let b = BigUint { value: vec![2] };
    let result = &a / &b;
    assert_eq!(&result, &BigUint { value: vec![3, 4] });

    let a = BigUint { value: vec![4, 7] };
    let b = BigUint { value: vec![2] };
    let result = &a / &b;
    assert_eq!(&result, &BigUint { value: vec![(1 << 63) + 2, 3] });

    let a = BigUint { value: vec![0, 4] };
    let b = BigUint { value: vec![1, 2] };
    let result = &a / &b;
    assert_eq!(&result, &BigUint { value: vec![1] });

    let a = BigUint { value: vec![1, 1] };
    let b = BigUint { value: vec![1] };
    let result = &a / &b;
    assert_eq!(&result, &BigUint { value: vec![1, 1] });
}

#[test]
fn div_when_one_correction_is_not_enough() {
    // 5 * 2^64 / (2 * 2^64 - 1)
    let a = BigUint { value: vec![0, 5] };
    let b = BigUint { value: vec![u64::MAX, 1] };
    assert_eq!(&a / &b, BigUint { value: vec![2] });
}

#[test]
fn div_when_the_estimated_digit_is_zero() {
    // 5 * 2^128 / (6 * 2^64 - 1)
    let a = BigUint { value: vec![0, 0, 5] };
    let b = BigUint { value: vec![u64::MAX, 5] };
    assert_eq!(&a / &b, BigUint { value: vec![15372286728091293013] });
}

#[test]
fn div_of_non_normalized_digits() {
    let a = BigUint { value: vec![7, 0, 0] };
    let b = BigUint { value: vec![2, 0] };
    assert_eq!(&a / &b, BigUint { value: vec![3] });
}

#[test]
fn normalize_drops_zero_digits() {
    let mut a = BigUint { value: vec![1, 0, 2, 0, 0] };
    a.normalize();
    assert_eq!(a, BigUint { value: vec![1, 0, 2] });
    let mut z = BigUint { value: vec![0, 0] };
    z.normalize();
    assert!(z.is_zero());
    assert_eq!(z.len(), 0);
}

#[test]
fn sub_wraps_on_non_normalized_digits() {
    // [0, 0] compares above [5] by length, but denotes 0: the difference wraps modulo 2^128.
    let a = BigUint { value: vec![0, 0] };
    let b = BigUint { value: vec![5] };
    assert_eq!(&a - &b, BigUint { value: vec![u64::MAX - 4, u64::MAX] });
}

#[test]
fn shl_halve_last_bit_pow() {
    let one = BigUint::one();
    assert_eq!(one.shl(64), BigUint { value: vec![0, 1] });
    assert_eq!(one.shl(3), BigUint { value: vec![8] });
    assert_eq!(BigUint { value: vec![3] }.shl(63), BigUint { value: vec![1 << 63, 1] });
    assert_eq!(BigUint { value: vec![1, 1] }.halve(), BigUint { value: vec![1 << 63] });
    assert_eq!(BigUint { value: vec![1] }.halve(), BigUint::zero());
    assert_eq!(BigUint { value: vec![5, 1] }.get_last_bit(), 1);
    assert_eq!(BigUint { value: vec![4, 1] }.get_last_bit(), 0);
    assert_eq!(BigUint::zero().get_last_bit(), 0);
    assert_eq!(BigUint { value: vec![5] }.pow_u64(3), BigUint { value: vec![125] });
    assert_eq!(BigUint { value: vec![5] }.pow_u64(0), BigUint::one());
    assert_eq!(
        BigUint { value: vec![1 << 32] }.pow_u64(3),
        BigUint { value: vec![0, 1 << 32] }
    );
    assert_eq!(BigUint::from_u64(0), BigUint::zero());
    assert_eq!(BigUint::from_u64(9), BigUint { value: vec![9] });
}

#[test]
fn normalized_values_have_one_form() {
    let mut a = BigUint { value: vec![5, 0, 0] };
    a.normalize();
    assert_eq!(a, BigUint::from_u64(5));
    let sum = &BigUint { value: vec![u64::MAX] } + &BigUint::one();
    let product = &BigUint { value: vec![1 << 32] } * &BigUint { value: vec![1 << 32] };
    assert_eq!(sum, product);
}
