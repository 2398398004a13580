use token_bonding_curve::inner_uint::InnerUint;
use token_bonding_curve::precise_number::DFSPreciseNumber;
use token_bonding_curve::precise_number::ONE;

#[test]
fn test_to_imprecise() {
    let number = DFSPreciseNumber::new(0).unwrap();
    assert_eq!(number.floor().unwrap().to_imprecise().unwrap(), 0);

    let number = DFSPreciseNumber::new(u128::MAX).unwrap();
    assert_eq!(number.to_imprecise().unwrap(), u128::MAX);

    // should just return None instead of panic if overflow
    let number = DFSPreciseNumber::new(u128::MAX).unwrap();
    let number = number.checked_add(&number).unwrap();
    assert!(number.to_imprecise().is_none());
}

#[test]
fn test_sqrt_u64() {
    // number below 1 (with uneven number of bits) 1.23456789e-9
    let number = DFSPreciseNumber::new(123456789)
        .unwrap()
        .checked_div(&(DFSPreciseNumber::new(10u128.pow(17)).unwrap()))
        .unwrap();
    assert_eq!(number.value.bits(), 31);
    // sqrt is 3.51364182864446216-5
    let expected_sqrt = DFSPreciseNumber::new(351364182864446216)
        .unwrap()
        .checked_div(&(DFSPreciseNumber::new(10u128.pow(22)).unwrap()))
        .unwrap();
    assert!(
        number
            .sqrt_u64(false)
            .unwrap()
            // precise to first 9 decimals
            .almost_eq(&expected_sqrt, InnerUint::from_u128(ONE / 1_000_000_000)),
        "sqrt {:?} not equal to expected {:?}",
        number.sqrt_u64(false).unwrap(),
        expected_sqrt,
    );

    // number below 1 (with even number of bits) 1e-8
    let number = DFSPreciseNumber::new(1)
        .unwrap()
        .checked_div(&(DFSPreciseNumber::new(10u128.pow(8)).unwrap()))
        .unwrap();
    assert_eq!(number.value.bits(), 34);
    // sqrt is 1-e4
    let expected_sqrt = DFSPreciseNumber::new(1)
        .unwrap()
        .checked_div(&(DFSPreciseNumber::new(10u128.pow(4)).unwrap()))
        .unwrap();
    assert!(
        number
            .sqrt_u64(false)
            .unwrap()
            // precise to first 9 decimals
            .almost_eq(&expected_sqrt, InnerUint::from_u128(ONE / 1_000_000_000)),
        "sqrt {:?} not equal to expected {:?}",
        number.sqrt_u64(false).unwrap(),
        expected_sqrt,
    );

    // exactly max_bits 18446744073709551615e-18 (this is 64 bits of 1, then divided by ONE)
    let number = DFSPreciseNumber::new(18446744073709551615)
        .unwrap()
        .checked_div(&(DFSPreciseNumber::new(10u128.pow(18)).unwrap()))
        .unwrap();
    assert_eq!(number.value.bits(), 64);
    // sqrt is 4.29496729599999999988
    let expected_sqrt = DFSPreciseNumber::new(4294967295999999999)
        .unwrap()
        .checked_div(&(DFSPreciseNumber::new(10u128.pow(18)).unwrap()))
        .unwrap();
    assert!(
        number
            .sqrt_u64(false)
            .unwrap()
            // precise to first 9 decimals
            .almost_eq(&expected_sqrt, InnerUint::from_u128(ONE / 1_000_000_000)),
        "sqrt {:?} not equal to expected {:?}",
        number.sqrt_u64(false).unwrap(),
        expected_sqrt,
    );

    // 1 exactly
    let number = DFSPreciseNumber::new(1).unwrap();
    // sqrt is 1
    let expected_sqrt = DFSPreciseNumber::new(1).unwrap();
    assert!(
        number
            .sqrt_u64(false)
            .unwrap()
            // precise to first 12 decimals
            .almost_eq(&expected_sqrt, InnerUint::from_u128(ONE / 1_000_000_000_000)),
        "sqrt {:?} not equal to expected {:?}",
        number.sqrt_u64(false).unwrap(),
        expected_sqrt,
    );

    // large number, even bits 1234567890123456789
    let number = DFSPreciseNumber::new(1234567890123456789).unwrap();
    assert_eq!(number.value.bits(), 120);
    // sqrt is 1111111106.111111099355555502655555
    let decimals = DFSPreciseNumber::new(111111099355555502655555)
        .unwrap()
        .checked_div(&(DFSPreciseNumber::new(10u128.pow(24)).unwrap()))
        .unwrap();
    let expected_sqrt = DFSPreciseNumber::new(1111111106)
        .unwrap()
        .checked_add(&decimals)
        .unwrap();
    assert!(
        number
            .sqrt_u64(false)
            .unwrap()
            // we lose more precision on these big ones so just first 9 digits
            .almost_eq(&expected_sqrt, InnerUint::from_u128(ONE * 10)),
        "sqrt {:?} not equal to expected {:?}",
        number.sqrt_u64(false).unwrap(),
        expected_sqrt,
    );

    // super large number, odd bits (pretty close to max value of u128) 1.23456789e38
    let number = DFSPreciseNumber::new(123456789)
        .unwrap()
        .checked_mul(&(DFSPreciseNumber::new(10u128.pow(30)).unwrap()))
        .unwrap();
    assert_eq!(number.value.bits(), 187);
    // sqrt is 11111111060555555440.5
    let expected_sqrt = DFSPreciseNumber::new(11111111060555555440).unwrap();
    assert!(
        number
            .sqrt_u64(false)
            .unwrap()
            // we lose more precision on these big ones so just first 9 (of the 20) digits is fine
            .almost_eq(
                &expected_sqrt,
                InnerUint::from_u128(ONE)
                    .checked_mul(&InnerUint::from_u128(10u128.pow(11)))
                    .unwrap(),
            ),
        "sqrt {:?} not equal to expected {:?}",
        number.sqrt_u64(false).unwrap(),
        expected_sqrt,
    );

    // small perfect square (4e-18), should_round_up=false
    let number = DFSPreciseNumber::new(4)
        .unwrap()
        .checked_div(&(DFSPreciseNumber::new(10u128.pow(18)).unwrap()))
        .unwrap();
    // 2e-9, shouldn't do any rounding
    let expected_sqrt = DFSPreciseNumber::new(2)
        .unwrap()
        .checked_div(&(DFSPreciseNumber::new(10u128.pow(9)).unwrap()))
        .unwrap();
    assert!(
        number.sqrt_u64(false).unwrap().eq(&expected_sqrt),
        "sqrt {:?} not equal to expected {:?}",
        number.sqrt_u64(false).unwrap(),
        expected_sqrt,
    );

    // small perfect square (4e-18), should_round_up=true
    let number = DFSPreciseNumber::new(4)
        .unwrap()
        .checked_div(&(DFSPreciseNumber::new(10u128.pow(18)).unwrap()))
        .unwrap();
    // 2e-9
    let expected_sqrt = DFSPreciseNumber::new(2)
        .unwrap()
        .checked_div(&(DFSPreciseNumber::new(10u128.pow(9)).unwrap()))
        .unwrap();
    assert!(
        number.sqrt_u64(true).unwrap().eq(&expected_sqrt),
        "sqrt {:?} not equal to expected {:?}",
        number.sqrt_u64(true).unwrap(),
        expected_sqrt,
    );

    // small imperfect square (3e-18), should_round_up=false
    let number = DFSPreciseNumber::new(3)
        .unwrap()
        .checked_div(&(DFSPreciseNumber::new(10u128.pow(18)).unwrap()))
        .unwrap();
    // 1.7320508075688e-9 (only room for first 10 digits), should round down to 1.732050807e-9
    let expected_sqrt = DFSPreciseNumber::new(1732050807)
        .unwrap()
        .checked_div(&(DFSPreciseNumber::new(10u128.pow(18)).unwrap()))
        .unwrap();
    assert!(
        number.sqrt_u64(false).unwrap().eq(&expected_sqrt),
        "sqrt {:?} not equal to expected {:?}",
        number.sqrt_u64(false).unwrap(),
        expected_sqrt,
    );

    // small imperfect square (3e-18), should_round_up=true
    let number = DFSPreciseNumber::new(3)
        .unwrap()
        .checked_div(&(DFSPreciseNumber::new(10u128.pow(18)).unwrap()))
        .unwrap();
    // 1.7320508075688e-9 (only room for first 10 digits), should round down to 1.732050808e-9
    let expected_sqrt = DFSPreciseNumber::new(1732050808)
        .unwrap()
        .checked_div(&(DFSPreciseNumber::new(10u128.pow(18)).unwrap()))
        .unwrap();
    assert!(
        number.sqrt_u64(true).unwrap().eq(&expected_sqrt),
        "sqrt {:?} not equal to expected {:?}",
        number.sqrt_u64(true).unwrap(),
        expected_sqrt,
    );

    // perfect square, should_round_up=false
    let number = DFSPreciseNumber::new(400).unwrap();
    let expected_sqrt = DFSPreciseNumber::new(20).unwrap();
    assert!(
        number.sqrt_u64(false).unwrap().eq(&expected_sqrt),
        "sqrt {:?} not equal to expected {:?}",
        number.sqrt_u64(false).unwrap(),
        expected_sqrt,
    );

    // perfect square, should_round_up=true
    let number = DFSPreciseNumber::new(400).unwrap();
    let expected_sqrt = DFSPreciseNumber::new(20).unwrap();
    assert!(
        number.sqrt_u64(true).unwrap().eq(&expected_sqrt),
        "sqrt {:?} not equal to expected {:?}",
        number.sqrt_u64(true).unwrap(),
        expected_sqrt,
    );

    // large imperfect square, should_round_up=false
    let number = DFSPreciseNumber::new(300).unwrap();
    // 17.32050807568
    let expected_sqrt = DFSPreciseNumber::new(1732050807568)
        .unwrap()
        .checked_div(&(DFSPreciseNumber::new(10u128.pow(11)).unwrap()))
        .unwrap();
    assert!(
        number
            .sqrt_u64(false)
            .unwrap()
            // just check first 9 digits (7 decimals) of precision
            .almost_eq(&expected_sqrt, InnerUint::from_u128(ONE / 10_000_000)),
        "sqrt {:?} not equal to expected {:?}",
        number.sqrt_u64(false).unwrap(),
        expected_sqrt,
    );
    // make sure we rounded down though
    assert!(
        number.sqrt_u64(false).unwrap().less_than(&expected_sqrt),
        "sqrt {:?} did not round down from expected {:?}",
        number.sqrt_u64(false).unwrap(),
        expected_sqrt,
    );

    // large imperfect square, should_round_up=true
    let number = DFSPreciseNumber::new(300).unwrap();
    // 17.32050807568
    let expected_sqrt = DFSPreciseNumber::new(1732050807568)
        .unwrap()
        .checked_div(&(DFSPreciseNumber::new(10u128.pow(11)).unwrap()))
        .unwrap();
    assert!(
        number
            .sqrt_u64(true)
            .unwrap()
            // just check first 9 digits (7 decimals) of precision
            .almost_eq(&expected_sqrt, InnerUint::from_u128(ONE / 10_000_000)),
        "sqrt {:?} not equal to expected {:?}",
        number.sqrt_u64(true).unwrap(),
        expected_sqrt,
    );
    // make sure we rounded up though
    assert!(
        number.sqrt_u64(true).unwrap().greater_than(&expected_sqrt),
        "sqrt {:?} did not round down from expected {:?}",
        number.sqrt_u64(true).unwrap(),
        expected_sqrt,
    );
}

#[test]
fn test_floor() {
    let whole_number = DFSPreciseNumber::new(2).unwrap();
    let mut decimal_number = DFSPreciseNumber::new(2).unwrap();
    decimal_number.value = decimal_number
        .value
        .checked_add(&InnerUint::from_u128(1))
        .unwrap();
    let floor = decimal_number.floor().unwrap();
    let floor_again = floor.floor().unwrap();
    assert_eq!(whole_number.value, floor.value);
    assert_eq!(whole_number.value, floor_again.value);
}

#[test]
fn test_ceiling() {
    let whole_number = DFSPreciseNumber::new(2).unwrap();
    let mut decimal_number = DFSPreciseNumber::new(2).unwrap();
    decimal_number.value = decimal_number
        .value
        .checked_sub(&InnerUint::from_u128(1))
        .unwrap();
    let ceiling = decimal_number.ceiling().unwrap();
    let ceiling_again = ceiling.ceiling().unwrap();
    assert_eq!(whole_number.value, ceiling.value);
    assert_eq!(whole_number.value, ceiling_again.value);
}
