use token_bonding_curve::inner_uint::InnerUint;
use token_bonding_curve::linear_price::RoundDirection;
use token_bonding_curve::linear_price::sqrt_babylonian;
use token_bonding_curve::linear_price::LinearPriceCurve;
use token_bonding_curve::linear_price::SwapError;
use token_bonding_curve::linear_price::TradeDirection;
use token_bonding_curve::precise_number::DFSPreciseNumber;

#[test]
fn locked_amount_increases_with_position() {
    // more bonded tokens out always means strictly more collateral locked
    let curve = LinearPriceCurve {
        slope_numerator: 1,
        slope_denominator: 2,
        initial_token_a_price_numerator: 150,
        initial_token_a_price_denominator: 3,
    };

    let mut previous = 0u128;
    for b in 1..20u128 {
        let locked = curve
            .amt_a_locked_at_b_value_quadratic(&DFSPreciseNumber::new(b).unwrap())
            .unwrap()
            .to_imprecise()
            .unwrap();
        assert!(locked > previous, "locked {} at b = {} did not grow", locked, b);
        previous = locked;
    }

    // the integral of price(b) = b/2 + 50 from 0 to 10 is 25 + 500
    let locked = curve
        .amt_a_locked_at_b_value_quadratic(&DFSPreciseNumber::new(10).unwrap())
        .unwrap()
        .to_imprecise()
        .unwrap();
    assert_eq!(locked, 525);
}

#[test]
fn position_inverts_locked_amount() {
    // the quadratic solver recovers the position from the locked amount
    let curve = LinearPriceCurve {
        slope_numerator: 1,
        slope_denominator: 2,
        initial_token_a_price_numerator: 0,
        initial_token_a_price_denominator: 1,
    };

    // locked(b) = b^2/4, so locked(6) = 9 and the inverse of 9 is 6
    let locked = curve
        .amt_a_locked_at_b_value_quadratic(&DFSPreciseNumber::new(6).unwrap())
        .unwrap()
        .to_imprecise()
        .unwrap();
    assert_eq!(locked, 9);

    let back = curve
        .b_value_with_amt_a_locked_quadratic(&DFSPreciseNumber::new(9).unwrap(), false)
        .unwrap()
        .to_imprecise()
        .unwrap();
    assert_eq!(back, 6);
}

#[test]
fn round_trip_never_profits() {
    // swap A in for B, give exactly that B back, and check the trader never
    // ends up with more A than they started with
    let curve = LinearPriceCurve {
        slope_numerator: 1,
        slope_denominator: 2,
        initial_token_a_price_numerator: 150,
        initial_token_a_price_denominator: 3,
    };

    for a_in in [101u128, 500, 1000, 12345, 99999] {
        let forward = curve.swap_without_fees(a_in, 0, 1_000_000_000, TradeDirection::AtoB);
        let forward = match forward {
            Some(f) => f,
            None => continue,
        };
        let a_consumed = forward.source_amount_swapped;
        let b_out = forward.destination_amount_swapped;

        let back = curve.swap_without_fees(
            b_out,
            1_000_000_000 - b_out,
            a_consumed,
            TradeDirection::BtoA,
        );
        if let Some(back) = back {
            assert!(
                back.destination_amount_swapped <= a_consumed,
                "round trip returned {} A for {} A put in",
                back.destination_amount_swapped,
                a_consumed,
            );
        }
    }
}

#[test]
fn zero_output_is_rejected() {
    let curve = LinearPriceCurve {
        slope_numerator: 1,
        slope_denominator: 2,
        initial_token_a_price_numerator: 150,
        initial_token_a_price_denominator: 3,
    };

    // 1 A is not enough to buy a single B at price 50, so the swap must fail
    // rather than succeed with a zero output
    let result = curve.swap_without_fees(1, 0, 5000, TradeDirection::AtoB);
    assert!(result.is_none());

    // the raw curve arithmetic confirms the payout would have been zero
    let (_, produced) = curve.swap_a_to_b(1, 0, 5000).unwrap();
    assert_eq!(produced, 0);
}

#[test]
fn initial_supply_validation_cases() {
    let curve = LinearPriceCurve {
        slope_numerator: 1,
        slope_denominator: 2,
        initial_token_a_price_numerator: 150,
        initial_token_a_price_denominator: 3,
    };

    // no bonded token: rejected as empty, whatever the collateral says
    assert_eq!(curve.validate_supply(0, 0), Err(SwapError::EmptySupply));
    assert_eq!(curve.validate_supply(7, 0), Err(SwapError::EmptySupply));

    // nonzero collateral: rejected for any bonded amount
    assert_eq!(curve.validate_supply(1, 10), Err(SwapError::InvalidSupply));
    assert_eq!(curve.validate_supply(u64::MAX, 1), Err(SwapError::InvalidSupply));
    assert_eq!(curve.validate_supply(3, u64::MAX), Err(SwapError::InvalidSupply));

    // bonded token present and no collateral: accepted
    assert_eq!(curve.validate_supply(0, 10), Ok(()));
}

#[test]
fn invalid_curve_error_value() {
    let curve = LinearPriceCurve {
        slope_numerator: 0,
        slope_denominator: 1,
        initial_token_a_price_numerator: 1,
        initial_token_a_price_denominator: 1,
    };
    assert_eq!(curve.validate(), Err(SwapError::InvalidCurve));
}

#[test]
fn unpack_rejects_wrong_length() {
    let short = vec![0u8; 31];
    assert_eq!(LinearPriceCurve::unpack(&short), Err(SwapError::InvalidInput));
    let long = vec![0u8; 33];
    assert_eq!(LinearPriceCurve::unpack(&long), Err(SwapError::InvalidInput));
}

#[test]
fn pack_bytes_are_little_endian() {
    let curve = LinearPriceCurve {
        slope_numerator: 0x0102030405060708,
        slope_denominator: 1,
        initial_token_a_price_numerator: 0x1122334455667788,
        initial_token_a_price_denominator: 2,
    };
    let mut packed = vec![0u8; 32];
    curve.pack_into_slice(&mut packed);
    assert_eq!(&packed[0..8], &[8, 7, 6, 5, 4, 3, 2, 1]);
    assert_eq!(&packed[8..16], &[1, 0, 0, 0, 0, 0, 0, 0]);
    assert_eq!(&packed[16..24], &[0x88, 0x77, 0x66, 0x55, 0x44, 0x33, 0x22, 0x11]);
    assert_eq!(&packed[24..32], &[2, 0, 0, 0, 0, 0, 0, 0]);
}

#[test]
fn disabled_operations_always_fail() {
    let curve = LinearPriceCurve {
        slope_numerator: 1,
        slope_denominator: 2,
        initial_token_a_price_numerator: 150,
        initial_token_a_price_denominator: 3,
    };
    assert!(curve
        .pool_tokens_to_trading_tokens(10, 100, 50, 50, RoundDirection::Floor)
        .is_none());
    assert!(curve
        .deposit_single_token_type(10, 50, 50, 100, TradeDirection::AtoB)
        .is_none());
    assert!(curve
        .withdraw_single_token_type_exact_out(10, 50, 50, 100, TradeDirection::BtoA)
        .is_none());
    assert!(!curve.allows_deposits());
}

#[test]
fn liquidity_limited_exact_boundary() {
    // with more offered than the pool's remaining bonded tokens cost, only
    // the actual cost is consumed and the whole reserve is paid out
    let curve = LinearPriceCurve {
        slope_numerator: 1,
        slope_denominator: 2_0000_0000,
        initial_token_a_price_numerator: 150,
        initial_token_a_price_denominator: 3,
    };

    let a_start = DFSPreciseNumber::new(81600_0000_0000).unwrap();
    let b_start = curve
        .b_value_with_amt_a_locked_quadratic(&a_start, true)
        .unwrap();
    let limited = curve
        .maximum_a_remaining_for_swap_a_to_b(&a_start, &b_start, 10000_0000_0000, 20_0000_0000)
        .unwrap();
    assert_eq!(limited, (5900_0000_0000, 20_0000_0000));

    // the full swap gives the same pair, not (10000_0000_0000, 20_0000_0000)
    let (consumed, produced) = curve
        .swap_a_to_b(10000_0000_0000, 81600_0000_0000, 20_0000_0000)
        .unwrap();
    assert_eq!((consumed, produced), (5900_0000_0000, 20_0000_0000));
}

#[test]
fn sqrt_babylonian_exact_roots() {
    assert_eq!(sqrt_babylonian(0), Some(0));
    assert_eq!(sqrt_babylonian(1), Some(1));
    assert_eq!(sqrt_babylonian(2), Some(1));
    assert_eq!(sqrt_babylonian(3), Some(1));
    assert_eq!(sqrt_babylonian(4), Some(2));
    assert_eq!(sqrt_babylonian(99), Some(9));
    assert_eq!(sqrt_babylonian(100), Some(10));
    assert_eq!(sqrt_babylonian(u64::MAX as u128), Some(4294967295));
    assert_eq!(sqrt_babylonian(u128::MAX), Some(18446744073709551615));
}

#[test]
fn normalized_value_tracks_total_position() {
    let curve = LinearPriceCurve {
        slope_numerator: 1,
        slope_denominator: 2,
        initial_token_a_price_numerator: 0,
        initial_token_a_price_denominator: 1,
    };

    // an empty pool has value zero
    let value = curve.normalized_value(0, 0).unwrap();
    assert_eq!(value.value, InnerUint { lo: 0, hi: 0 });

    // one bonded token: the raw total is 10^18, which spans 60 bits, so the
    // normalized value keeps its top 32 bits: 10^18 >> 28
    let value = curve.normalized_value(0, 1).unwrap();
    assert_eq!(value.value, InnerUint { lo: 3725290298, hi: 0 });
}
