use nanvm_lib::big_float::{bigfloat_to_f64_bits, BigFloat};
use nanvm_lib::big_int::{BigInt, Sign};
use nanvm_lib::big_uint::BigUint;

fn bf10(significand: BigInt, exp: i64) -> BigFloat<10> {
    BigFloat { significand, exp, non_zero_reminder: false }
}

fn bf2(significand: BigInt, exp: i64, non_zero_reminder: bool) -> BigFloat<2> {
    BigFloat { significand, exp, non_zero_reminder }
}

fn to_f64(value: BigFloat<2>) -> f64 {
    f64::from_bits(value.get_f64_bits())
}

#[test]
fn test_zero() {
    let res = BigFloat::<10>::zero().to_bin(64);
    assert_eq!(res, BigFloat::<2>::zero());

    let res = bf10(BigInt::zero(), 10).to_bin(64);
    assert_eq!(res, BigFloat::<2>::zero());

    let res = bf10(BigInt::zero(), -10).to_bin(64);
    assert_eq!(res, BigFloat::<2>::zero());
}

#[test]
fn big_float_test_integer() {
    let res = bf10(BigInt::from_i64(100), 0).to_bin(7);
    assert_eq!(res, bf2(BigInt::from_i64(100), 0, false));

    let res = bf10(BigInt::from_i64(1), 1).to_bin(64);
    assert_eq!(res, bf2(BigInt::from_u64(10 << 60), -60, false));

    let res = bf10(BigInt::from_i64(100), 2).to_bin(64);
    assert_eq!(res, bf2(BigInt::from_u64(10000 << 50), -50, false));

    let res = bf10(BigInt::from_i64(128), 0).to_bin(9);
    assert_eq!(res, bf2(BigInt::from_i64(256), -1, false));
}

#[test]
fn test_integer_round() {
    let res = bf10(BigInt::from_i64(128), 0).to_bin(4);
    assert_eq!(res, bf2(BigInt::from_i64(8), 4, false));

    let res = bf10(BigInt::from_i64(129), 0).to_bin(4);
    assert_eq!(res, bf2(BigInt::from_i64(8), 4, true));
}

#[test]
fn big_float_test_float() {
    let res = bf10(BigInt::from_i64(100), -1).to_bin(5);
    assert_eq!(res, bf2(BigInt::from_i64(20), -1, false));

    let res = bf10(BigInt::from_i64(100), -1).to_bin(64);
    assert_eq!(
        res,
        bf2(
            BigInt { sign: Sign::Positive, value: BigUint { value: vec![(1 << 63) + (1 << 61)] } },
            -60,
            false
        )
    );

    let a = bf10(BigInt { sign: Sign::Positive, value: BigUint { value: vec![0, 1] } }, 0);
    let res = a.to_bin(53);
    assert_eq!(
        res,
        bf2(BigInt { sign: Sign::Positive, value: BigUint { value: vec![1 << 52] } }, 12, false)
    );
}

#[test]
fn test_round() {
    let res = bf10(BigInt::from_i64(0b1000_0001), -1).to_bin(5);
    assert_eq!(res, bf2(BigInt::from_i64(0b11001), -1, true));

    let res = bf10(BigInt::from_i64(0b1000_0001), -1).to_bin(4);
    assert_eq!(res, bf2(BigInt::from_i64(0b1100), 0, true));

    let res = bf10(BigInt::from_i64(0b1000_0001), -1).to_bin(3);
    assert_eq!(res, bf2(BigInt::from_i64(0b110), 1, true));
}

#[test]
fn test_round_half() {
    let res = bf10(BigInt::from_i64(0b101_1010), -1).to_bin(3);
    assert_eq!(res, bf2(BigInt::from_i64(0b100), 1, true));

    let res = bf10(BigInt::from_i64(0b101_1011), -1).to_bin(3);
    assert_eq!(res, bf2(BigInt::from_i64(0b100), 1, true));

    let res = bf10(BigInt::from_i64(0b110_1101), -1).to_bin(3);
    assert_eq!(res, bf2(BigInt::from_i64(0b101), 1, true));

    let res = bf10(BigInt::from_i64(0b110_1110), -1).to_bin(3);
    assert_eq!(res, bf2(BigInt::from_i64(0b101), 1, true));

    let res = bf10(BigInt::from_i64(0b1001_0110), -1).to_bin(3);
    assert_eq!(res, bf2(BigInt::from_i64(0b111), 1, true));
}

#[test]
fn test_zero_to_f64() {
    let res = to_f64(bf2(BigInt::zero(), 100, false));
    assert_eq!(res, 0.0);
    assert!(res.is_sign_positive());

    let res = to_f64(bf2(BigInt { sign: Sign::Negative, value: BigUint::zero() }, 100, false));
    assert_eq!(res, 0.0);
    assert!(res.is_sign_negative());
}

#[test]
fn test_normal_to_f64() {
    assert_eq!(to_f64(bf2(BigInt::from_u64(1), 0, false)), 1.0);
    assert_eq!(to_f64(bf2(BigInt::from_i64(-3), -1, false)), -1.5);
    assert_eq!(to_f64(bf2(BigInt::from_i64(1), -1022, false)), 2.0f64.powf(-1022.0));
    assert_eq!(to_f64(bf2(BigInt::from_i64(1), 1023, false)), 2.0f64.powf(1023.0));
    assert_eq!(to_f64(bf2(BigInt::from_u64((1 << 52) - 1), 0, false)), 4503599627370495f64);
    assert_eq!(to_f64(bf2(BigInt::from_u64((1 << 53) - 1), 0, false)), 9007199254740991f64);
}

#[test]
fn test_normal_to_f64_round() {
    assert_eq!(to_f64(bf2(BigInt::from_u64((1 << 54) - 1), 0, false)), 18014398509481983f64);
    assert_eq!(to_f64(bf2(BigInt::from_u64((1 << 54) - 2), 0, false)), 18014398509481982f64);
    assert_eq!(to_f64(bf2(BigInt::from_u64((1 << 54) - 3), 0, false)), 18014398509481980f64);
    assert!(to_f64(bf2(BigInt::from_u64((1 << 54) - 1), 969, false)).is_normal());
    assert!(to_f64(bf2(BigInt::from_u64((1 << 54) - 1), 970, false)).is_infinite());
}

#[test]
fn test_infinity_to_f64() {
    let res = to_f64(bf2(BigInt::from_i64(1), 1024, false));
    assert!(res.is_infinite());
    assert!(res.is_sign_positive());

    let res = to_f64(bf2(BigInt::from_i64(-1), 1024, false));
    assert!(res.is_infinite());
    assert!(res.is_sign_negative());
}

#[test]
fn test_subnormal_to_f64() {
    let res = to_f64(bf2(BigInt::from_u64(1), -1023, false));
    assert_eq!(res, 2.0f64.powf(-1023.0));
    assert!(res.is_subnormal());

    let res = to_f64(bf2(BigInt::from_i64(-1), -1023, false));
    assert_eq!(res, -2.0f64.powf(-1023.0));
    assert!(res.is_subnormal());

    let res = to_f64(bf2(BigInt::from_u64(1), -1074, false));
    assert_eq!(res.to_bits(), 1);
    assert_eq!(res, 2.0f64.powf(-1074.0));
    assert!(res.is_subnormal());

    let res = to_f64(bf2(BigInt::from_u64(1), -1075, false));
    assert_eq!(res, 0.0);
}

#[test]
fn to_bin_of_a_tenth_sets_the_reminder() {
    // 1/10 is not a finite binary fraction: 0.1 = 0b0.000110011..., 8 bits: 0b11001100 * 2^-11.
    let res = bf10(BigInt::from_i64(1), -1).to_bin(8);
    assert_eq!(res, bf2(BigInt::from_i64(0b1100_1100), -11, true));
}

#[test]
fn to_bin_keeps_the_sign() {
    let res = bf10(BigInt::from_i64(-25), -1).to_bin(4);
    assert_eq!(res, bf2(BigInt::from_i64(-0b1010), -2, false));
}

#[test]
fn to_f64_matches_std_parsing() {
    let bits = bf10(BigInt::from_i64(1), -1).to_bin(54).get_f64_bits();
    assert_eq!(f64::from_bits(bits), 0.1);
    let bits = bf10(BigInt::from_i64(12345), -2).to_bin(54).get_f64_bits();
    assert_eq!(f64::from_bits(bits), 123.45);
    let bits = bf10(BigInt::from_i64(-5), 300).to_bin(54).get_f64_bits();
    assert_eq!(f64::from_bits(bits), -5e300);
}

#[test]
fn bigfloat_to_f64_bits_rounds_to_nearest() {
    assert_eq!(f64::from_bits(bigfloat_to_f64_bits(bf10(BigInt::from_i64(1), -1))), 0.1);
    assert_eq!(f64::from_bits(bigfloat_to_f64_bits(bf10(BigInt::from_i64(-25), -1))), -2.5);
    assert_eq!(bigfloat_to_f64_bits(bf10(BigInt::zero(), 5)), 0);
    assert_eq!(
        bigfloat_to_f64_bits(bf10(BigInt { sign: Sign::Negative, value: BigUint::zero() }, 5)),
        0
    );
    // 2^53 + 1 is a tie between 2^53 and 2^53 + 2: the even significand wins.
    assert_eq!(
        f64::from_bits(bigfloat_to_f64_bits(bf10(BigInt::from_u64(9007199254740993), 0))),
        9007199254740992.0
    );
    assert_eq!(f64::from_bits(bigfloat_to_f64_bits(bf10(BigInt::from_i64(1), 400))), f64::INFINITY);
    assert_eq!(f64::from_bits(bigfloat_to_f64_bits(bf10(BigInt::from_i64(1), -400))), 0.0);
}
