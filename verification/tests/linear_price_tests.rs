use token_bonding_curve::linear_price::LinearPriceCurve;
use token_bonding_curve::linear_price::SwapWithoutFeesResult;
use token_bonding_curve::linear_price::TradeDirection;
use token_bonding_curve::linear_price::solve_quadratic_positive_root;
use token_bonding_curve::precise_number::DFSPreciseNumber;

#[test]
fn swap_a_to_b_basic() {
    let curve = LinearPriceCurve {
        slope_numerator: 1,
        slope_denominator: 2,
        initial_token_a_price_numerator: 150,
        initial_token_a_price_denominator: 3, // using non-1 just to test out
    };

    // put in 101 A, should get 2 B out
    let (source_amount, destination_amount) = curve.swap_a_to_b(101, 0, 5000).unwrap();
    assert_eq!(source_amount, 101);
    assert_eq!(destination_amount, 2);

    // put in 103 A, should get 2 more B out
    let (source_amount, destination_amount) = curve.swap_a_to_b(103, 101, 4998).unwrap();
    assert_eq!(source_amount, 103);
    assert_eq!(destination_amount, 2);

    // same as above but assuming they both have 8 decimals
    let curve = LinearPriceCurve {
        slope_numerator: 1,
        slope_denominator: 2_0000_0000,
        initial_token_a_price_numerator: 150,
        initial_token_a_price_denominator: 3,
    };

    let (source_amount, destination_amount) =
        curve.swap_a_to_b(101_0000_0000, 0, 5000_0000_0000).unwrap();
    assert_eq!(source_amount, 101_0000_0000);
    assert_eq!(destination_amount, 2_0000_0000);

    // putting in 5900K A @ 81600 A locked/20B remaining should give out the last 20 B
    let (source_amount, destination_amount) = curve
        .swap_a_to_b(5900_0000_0000, 81600_0000_0000, 20_0000_0000)
        .unwrap();
    assert_eq!(source_amount, 5900_0000_0000);
    assert_eq!(destination_amount, 20_0000_0000);

    // putting in 10K A @ 81600 A locked/20B remaining should give out the last 20 B and only take 5.9K A
    let (source_amount, destination_amount) = curve
        .swap_a_to_b(10000_0000_0000, 81600_0000_0000, 20_0000_0000)
        .unwrap();
    assert_eq!(source_amount, 5900_0000_0000);
    assert_eq!(destination_amount, 20_0000_0000);

    // a curve segment with a shallow slope, with A carrying 18 decimals
    let curve = LinearPriceCurve {
        slope_numerator: 5689_549_999_968_874,
        slope_denominator: 1_000_000_000_000,
        initial_token_a_price_numerator: 35_915742_315103,
        initial_token_a_price_denominator: 1,
    };

    // putting in 7296... A in, should move the price up by just under 200 B
    let (source_amount, destination_amount) = curve
        .swap_a_to_b(7296_939463_019977_479999, 0, 5000_000000)
        .unwrap();
    assert_eq!(source_amount, 7296_939463_019977_479999);
    assert_eq!(destination_amount, 199_999997); // rounds down a bit due to sqrt precision

    // put in 7524... more A, should get another ~200 B out
    let (source_amount, destination_amount) = curve
        .swap_a_to_b(
            7524_521463_008709_920000,
            7296_939463_030000_000000,
            4800_000000,
        )
        .unwrap();
    assert_eq!(source_amount, 7524_521463_008709_920000);
    assert_eq!(destination_amount, 199_999997); // rounds down a bit due to sqrt precision
}

#[test]
fn swap_b_to_a_basic() {
    let curve = LinearPriceCurve {
        slope_numerator: 1,
        slope_denominator: 2,
        initial_token_a_price_numerator: 150,
        initial_token_a_price_denominator: 3,
    };

    // pretty much the opposite cases as above

    // put in 2 B at 101 A, should get 101 A out
    let (source_amount, destination_amount) = curve.swap_b_to_a(2, 4998, 101).unwrap();
    assert_eq!(source_amount, 2);
    assert_eq!(destination_amount, 101);

    // put in 2 B at 204 A, should get 103 A out
    let (source_amount, destination_amount) = curve.swap_b_to_a(2, 4996, 204).unwrap();
    assert_eq!(source_amount, 2);
    assert_eq!(destination_amount, 103);

    // same as above but assuming they both have 8 decimals
    let curve = LinearPriceCurve {
        slope_numerator: 1,
        slope_denominator: 2_0000_0000,
        initial_token_a_price_numerator: 150,
        initial_token_a_price_denominator: 3,
    };

    let (source_amount, destination_amount) = curve
        .swap_b_to_a(2_0000_0000, 4998_0000_0000, 101_0000_0000)
        .unwrap();
    assert_eq!(source_amount, 2_0000_0000);
    assert_eq!(destination_amount, 101_0000_0000);

    // the shallow-slope segment again, with A carrying 18 decimals
    let curve = LinearPriceCurve {
        slope_numerator: 5689_549_999_968_874,
        slope_denominator: 1_000_000_000_000,
        initial_token_a_price_numerator: 35_915742_315103,
        initial_token_a_price_denominator: 1,
    };

    // putting in 200 B at 7296.9394630144 A, should get it all out
    let (source_amount, destination_amount) = curve
        .swap_b_to_a(200_000000, 4800_000000, 7296_939463_019977_480000)
        .unwrap();
    assert_eq!(source_amount, 200_000000);
    // note this rounds down from 7296_939463019977480000 due to sqrt rounding
    assert_eq!(destination_amount, 7296_939427104235162052);

    // put in 200 B at 14821.4609260237 A, should get 7524.5214630093 A out
    let (source_amount, destination_amount) = curve
        .swap_b_to_a(200_000000, 4600_000000, 14821_460926_038709_920000)
        .unwrap();
    assert_eq!(source_amount, 200_000000);
    // note this rounds down from 7524_521463018732440000 due to sqrt rounding
    assert_eq!(destination_amount, 7524_521388911427798427);

    // put in 300 B at 7296.9394630144 A, should get it all out (and only take 200 B)
    let (source_amount, destination_amount) = curve
        .swap_b_to_a(300_000000, 4800_000000, 7296_939463_019977_480000)
        .unwrap();
    assert_eq!(source_amount, 200_000000);
    assert_eq!(destination_amount, 7296_939463_019977_480000);
}

#[test]
fn swap_0_0_curve() {
    // a curve that starts at 0/0
    let curve = LinearPriceCurve {
        slope_numerator: 1,
        slope_denominator: 2,
        initial_token_a_price_numerator: 0,
        initial_token_a_price_denominator: 1,
    };

    // put in 9 A, should get 6 B out
    let (source_amount, destination_amount) = curve.swap_a_to_b(9, 0, 5000).unwrap();
    assert_eq!(source_amount, 9);
    assert_eq!(destination_amount, 6);

    // put in 6 B at 9 A, should get all 9 A out
    let (source_amount, destination_amount) = curve.swap_b_to_a(6, 494, 9).unwrap();
    assert_eq!(source_amount, 6);
    assert_eq!(destination_amount, 9);

    // put in 11 B at 9 A, should get all 9 A out and only take 6 B
    let (source_amount, destination_amount) = curve.swap_b_to_a(11, 494, 9).unwrap();
    assert_eq!(source_amount, 6);
    assert_eq!(destination_amount, 9);
}

#[test]
fn swap_without_fees() {
    let curve = LinearPriceCurve {
        slope_numerator: 1,
        slope_denominator: 2,
        initial_token_a_price_numerator: 350,
        initial_token_a_price_denominator: 7,
    };

    let result = curve
        .swap_without_fees(101, 0, 5000, TradeDirection::AtoB)
        .unwrap();
    assert_eq!(
        result,
        SwapWithoutFeesResult {
            source_amount_swapped: 101,
            destination_amount_swapped: 2
        }
    );

    let result = curve
        .swap_without_fees(2, 4998, 101, TradeDirection::BtoA)
        .unwrap();
    assert_eq!(
        result,
        SwapWithoutFeesResult {
            source_amount_swapped: 2,
            destination_amount_swapped: 101
        }
    );
}

#[test]
fn pack_flat_curve() {
    let curve = LinearPriceCurve {
        slope_numerator: u64::MAX,
        slope_denominator: u64::MAX - 1,
        initial_token_a_price_numerator: 0,
        initial_token_a_price_denominator: u32::MAX.into(),
    };

    let mut packed = vec![0u8; 32];
    curve.pack_into_slice(&mut packed);
    let unpacked = LinearPriceCurve::unpack(&packed).unwrap();
    assert_eq!(curve, unpacked);

    let mut packed = vec![];
    packed.extend_from_slice(&curve.slope_numerator.to_le_bytes());
    packed.extend_from_slice(&curve.slope_denominator.to_le_bytes());
    packed.extend_from_slice(&curve.initial_token_a_price_numerator.to_le_bytes());
    packed.extend_from_slice(&curve.initial_token_a_price_denominator.to_le_bytes());
    let unpacked = LinearPriceCurve::unpack(&packed).unwrap();
    assert_eq!(curve, unpacked);
}

#[test]
fn swap_large_price_max_a() {
    // curve with everything near u64::MAX (though slope is actually ~1)
    let curve = LinearPriceCurve {
        slope_numerator: u64::MAX,
        slope_denominator: u64::MAX - 1,
        initial_token_a_price_numerator: u64::MAX,
        initial_token_a_price_denominator: 1,
    };

    // with initial_token_a_price == u64::MAX, there aren't ever enough A tokens
    // to get any B tokens out
    for exp in 0..96 {
        let result = curve.swap_without_fees(
            2_u128.pow(exp),
            0,
            1_00000_00000_00000_00000,
            TradeDirection::AtoB,
        );
        assert!(result.is_none());
    }

    // putting in 2^97 tokens works, though not much point since it's past spl token max
    let result = curve.swap_without_fees(
        2u128.pow(97),
        0,
        1_00000_00000_00000_00000,
        TradeDirection::AtoB,
    );
    assert_eq!(
        result.unwrap(),
        SwapWithoutFeesResult {
            source_amount_swapped: 2u128.pow(97),
            destination_amount_swapped: 4611686018
        }
    );

    // putting in u128 max tokens works too, so this won't ever overflow
    let result = curve.swap_without_fees(
        u128::MAX,
        0,
        1_00000_00000_00000_00000,
        TradeDirection::AtoB,
    );
    assert_eq!(
        result.unwrap(),
        SwapWithoutFeesResult {
            source_amount_swapped: u128::MAX,
            destination_amount_swapped: 13503953894904916780
        }
    );

    // b -> a: the sqrt calculation overflows even with just 1 B
    let result = curve.swap_without_fees(
        1,
        0, // this doesn't matter (it's the amount of token b left but we're going the other direction)
        2u128.pow(64),
        TradeDirection::BtoA,
    );
    assert!(result.is_none());
}

#[test]
fn swap_large_price_a_u32() {
    // example curve with A price relatively low and everything else high
    let curve = LinearPriceCurve {
        slope_numerator: u64::MAX,
        slope_denominator: u64::MAX - 1,
        initial_token_a_price_numerator: u32::MAX.into(),
        initial_token_a_price_denominator: 1,
    };

    // testing a -> b

    // put in 2^64 - 1 A tokens
    let result = curve.swap_without_fees(
        (u64::MAX).into(),
        0,
        1_00000_00000_00000_00000,
        TradeDirection::AtoB,
    );
    assert_eq!(
        result.unwrap(),
        SwapWithoutFeesResult {
            source_amount_swapped: u64::MAX.into(),
            // a little less than real value of 31441_34276 due to sqrt rounding
            destination_amount_swapped: 31441_34275
        }
    );

    // note calculator handles values even up to 128 max without overflowing
    let result = curve.swap_without_fees(
        u128::MAX,
        0,
        1_00000_00000_00000_00000,
        TradeDirection::AtoB,
    );
    assert_eq!(
        result.unwrap(),
        SwapWithoutFeesResult {
            source_amount_swapped: u128::MAX,
            // note because of sqrt precision, this is slightly rounded down from
            // the exact value of 26087635646370597129
            destination_amount_swapped: 26087635639488208246
        }
    );

    // testing b -> a on the same curve
    let result = curve
        .swap_without_fees(
            13043817819744104123, // amount B in = diff between B values
            0,
            340282366920938463463374607431768211455,
            TradeDirection::BtoA,
        )
        .unwrap();

    assert_eq!(result.source_amount_swapped, 13043817819744104123);
    assert_eq!(
        result.destination_amount_swapped,
        // note due to sqrt precision this is slightly less than the exact amount of
        // 255211775207578775521468175730000158875
        255211775087270790878881086478269459899
    );

    // now (with actual A numbers above), swap balance is 85070591833667672584493520953498751556
    let result = curve
        .swap_without_fees(
            6521908914483738081, // amount B in = diff between B values
            0,
            85070591833667672584493520953498751556,
            TradeDirection::BtoA,
        )
        .unwrap();

    assert_eq!(result.source_amount_swapped, 6521908914483738081);
    assert_eq!(
        result.destination_amount_swapped,
        // same note as above - slightly off from exact amount of
        // 63802943861245061694031837281503533219
        63802943845173758276417067327404556546
    );

    // now (with actual A numbers above), swap balance is 21267647988493914308076453626094195010
    let result = curve
        .swap_without_fees(
            // note due to sqrt rounding this requires more than the actual amount
            // of 6521908916947940451
            6521908918180041637,
            0,
            21267647988493914308076453626094195010,
            TradeDirection::BtoA,
        )
        .unwrap();

    assert_eq!(result.source_amount_swapped, 6521908918180041637);
    assert_eq!(
        result.destination_amount_swapped,
        21267647988493914308076453626094195010
    );

    // same as above but with a huge token b, make sure we only take the required amount
    let result = curve
        .swap_without_fees(
            u128::MAX, // way more token b than needed to get all the token a out
            0,
            21267647988493914308076453626094195010,
            TradeDirection::BtoA,
        )
        .unwrap();

    assert_eq!(
        result.source_amount_swapped,
        6521908918180041637 // should still only take this much B
    );
    assert_eq!(
        result.destination_amount_swapped,
        21267647988493914308076453626094195010
    );
}

#[test]
fn swap_large_price_low_slope_u128() {
    // example curve with lowest possible slope and 0 starting A price
    let curve = LinearPriceCurve {
        slope_numerator: 1,
        slope_denominator: 1_000_000_000_000_000_000,
        initial_token_a_price_numerator: 0,
        initial_token_a_price_denominator: 1,
    };

    let result = curve.swap_without_fees(1, 0, u128::MAX - 1, TradeDirection::AtoB);
    assert_eq!(
        result.unwrap(),
        SwapWithoutFeesResult {
            source_amount_swapped: 1,
            // due to sqrt rounding, slightly lower than real value of 1414213562
            destination_amount_swapped: 1414213561
        }
    );

    let result = curve.swap_without_fees(u128::MAX, 0, u128::MAX - 1, TradeDirection::AtoB);
    assert_eq!(
        result.unwrap(),
        SwapWithoutFeesResult {
            source_amount_swapped: u128::MAX,
            // due to sqrt precision, this is slightly off from exact value of
            // 26087635650665564424699143612
            destination_amount_swapped: 26087635642281361408000000000
        }
    );

    // testing b -> a on the same curve

    // put all 26087635642281361408000000000 B back in, should get all u128 max out
    let result = curve
        .swap_without_fees(
            26087635642281361408000000000,
            0,
            u128::MAX,
            TradeDirection::BtoA,
        )
        .unwrap();

    assert_eq!(result.source_amount_swapped, 26087635642281361408000000000);
    assert_eq!(
        result.destination_amount_swapped,
        // due to sqrt precision, this is slightly rounded down from exact value of
        // 340282366920938463463374607431768211455 (u128 max)
        340282366920938463426481119284349108223
    );

    let result = curve
        .swap_without_fees(
            13043817821140680704000000000,
            0,
            u128::MAX,
            TradeDirection::BtoA,
        )
        .unwrap();

    assert_eq!(result.source_amount_swapped, 13043817821140680704000000000);
    assert_eq!(
        result.destination_amount_swapped,
        // due to sqrt precision, this is slightly off from exact value of
        // 255211775245384855968958685917529243647
        255211775133339314018502795692393627647
    );

    // now (with actual A numbers above), swap balance is 85070591787599149444871811739374583808
    let result = curve
        .swap_without_fees(
            6521908914865307648000000000,
            0,
            85070591787599149444871811739374583808,
            TradeDirection::BtoA,
        )
        .unwrap();

    assert_eq!(result.source_amount_swapped, 6521908914865307648000000000);
    assert_eq!(
        result.destination_amount_swapped,
        63802943840699362083653858804530937856
    );

    // now (with actual A numbers above), swap balance is 21267647946899787361217952934843645952
    let result = curve
        .swap_without_fees(
            6521908914865307648000000000,
            0,
            21267647946899787361217952934843645952,
            TradeDirection::BtoA,
        )
        .unwrap();

    assert_eq!(result.source_amount_swapped, 6521908914865307648000000000);
    assert_eq!(
        result.destination_amount_swapped,
        21267647946899787361217952934843645952
    );

    // same as above but with a huge token b, make sure we only take the required amount
    let result = curve
        .swap_without_fees(
            u128::MAX,
            0,
            21267647946899787361217952934843645952,
            TradeDirection::BtoA,
        )
        .unwrap();

    assert_eq!(
        result.source_amount_swapped,
        6521908914865307648000000000 // should still only take this much B
    );
    assert_eq!(
        result.destination_amount_swapped,
        21267647946899787361217952934843645952
    );
}

#[test]
fn swap_large_price_low_slope_u64() {
    let curve = LinearPriceCurve {
        slope_numerator: 1,
        slope_denominator: 1_000_000_000_000_000_000,
        initial_token_a_price_numerator: 0,
        initial_token_a_price_denominator: 1,
    };

    // same as above but we only use u64 values (realistically that's the maximum
    // unless SPL max supply changes)
    let result = curve.swap_without_fees(u64::MAX.into(), 0, u128::MAX - 1, TradeDirection::AtoB);
    assert_eq!(
        result.unwrap(),
        SwapWithoutFeesResult {
            source_amount_swapped: u64::MAX.into(),
            // due to sqrt precision, this is slightly off from exact value of
            // 6074000999952099384
            destination_amount_swapped: 6074000998000000000
        }
    );

    // testing b -> a on the same curve

    // put all 6074000998000000000 B back in, should get all u64 max out
    let result = curve
        .swap_without_fees(
            6074000998000000000,
            0,
            u64::MAX.into(),
            TradeDirection::BtoA,
        )
        .unwrap();

    assert_eq!(result.source_amount_swapped, 6074000998000000000);
    assert_eq!(
        result.destination_amount_swapped,
        // due to sqrt precision, this is slightly rounded down from exact value of
        // 18446744073709551615 (u64 max)
        18446744073709551613
    );

    // swap from initial A locked of u64 max all the way down to 0 - make sure
    // any rounding is not in user's favor to prevent arbitrage
    let result = curve
        .swap_without_fees(
            3037000499000000000,
            0,
            u64::MAX.into(),
            TradeDirection::BtoA,
        )
        .unwrap();

    assert_eq!(result.source_amount_swapped, 3037000499000000000);
    assert_eq!(
        result.destination_amount_swapped,
        // due to sqrt precision, this is slightly off from exact value of
        // 13835058058246427115
        13835058052172426114
    );

    // now (with actual A numbers above), swap balance is 4611686021537125501
    let result = curve
        .swap_without_fees(
            1518500250500000000,
            0,
            4611686021537125501,
            TradeDirection::BtoA,
        )
        .unwrap();

    assert_eq!(result.source_amount_swapped, 1518500250500000000);
    assert_eq!(
        result.destination_amount_swapped,
        // same note as above - slightly off from exact amount of
        // 3458764516152844126
        3458764514634343874
    );

    // now (with actual A numbers above), swap balance is 1152921506902781627
    let result = curve
        .swap_without_fees(
            // due to sqrt rounding, requires more token B than the exact value of
            // 1518500251500000000
            1518500252000000000,
            0,
            1152921506902781627,
            TradeDirection::BtoA,
        )
        .unwrap();

    assert_eq!(result.source_amount_swapped, 1518500252000000000);
    assert_eq!(result.destination_amount_swapped, 1152921506902781627);

    // same as above but with a huge token b, make sure we only take the required amount
    let result = curve
        .swap_without_fees(
            u128::MAX,
            0,
            1152921506902781627,
            TradeDirection::BtoA,
        )
        .unwrap();

    assert_eq!(
        result.source_amount_swapped,
        1518500252000000000 // should still only take this much B
    );
    assert_eq!(result.destination_amount_swapped, 1152921506902781627);
}

#[test]
fn swap_large_initial_a_num_and_den() {
    // curve with everything near u64::MAX
    let curve = LinearPriceCurve {
        slope_numerator: u64::MAX,
        slope_denominator: u64::MAX - 1,
        initial_token_a_price_numerator: u64::MAX - 1,
        initial_token_a_price_denominator: u64::MAX,
    };

    // testing a -> b

    // put in 2^64 - 1 A tokens
    let result = curve.swap_without_fees(
        (u64::MAX).into(),
        0,
        1_00000_00000_00000_00000,
        TradeDirection::AtoB,
    );
    assert_eq!(
        result.unwrap(),
        SwapWithoutFeesResult {
            source_amount_swapped: u64::MAX.into(),
            // due to sqrt precision, this is slightly off from exact value of
            // 60740_00998
            destination_amount_swapped: 60740_00997
        }
    );

    // testing b -> a on the same curve
    let result = curve
        .swap_without_fees(
            3037000499,
            0,
            18446744073709551615,
            TradeDirection::BtoA,
        )
        .unwrap();

    assert_eq!(result.source_amount_swapped, 3037000499);
    assert_eq!(
        result.destination_amount_swapped,
        // note because of sqrt precision, this is slightly different than the
        // exact amount of 13835058055209426615
        13835058049135425613
    );

    // now (with actual A numbers above), swap balance is 4611686021537125501
    let result = curve
        .swap_without_fees(
            1518500250,
            0,
            4611686021537125501,
            TradeDirection::BtoA,
        )
        .unwrap();

    assert_eq!(result.source_amount_swapped, 1518500250);
    assert_eq!(
        result.destination_amount_swapped,
        // note because of sqrt precision, this is slightly different than the
        // exact amount of 3458764515393594001
        3458764513875093749
    );

    // now (with actual A numbers above), swap balance is 1152921507662031752
    let result = curve
        .swap_without_fees(
            // note due to sqrt rounding this requires 1 more than the actual amount
            // (it ends up only taking 1518500251 as expected though)
            1518500252,
            0,
            1152921507662031752,
            TradeDirection::BtoA,
        )
        .unwrap();

    assert_eq!(result.source_amount_swapped, 1518500251);
    assert_eq!(result.destination_amount_swapped, 1152921507662031752);

    // same as above but with a huge token b, make sure we only take the required amount
    let result = curve
        .swap_without_fees(
            u128::MAX,
            0,
            1152921507662031752,
            TradeDirection::BtoA,
        )
        .unwrap();

    assert_eq!(
        result.source_amount_swapped,
        1518500251 // should still only take this much B
    );
    assert_eq!(result.destination_amount_swapped, 1152921507662031752);
}

#[test]
fn swap_maximum_slope() {
    // curve with slope = u64::MAX
    let curve = LinearPriceCurve {
        slope_numerator: u64::MAX,
        slope_denominator: 1,
        initial_token_a_price_numerator: u64::MAX - 1,
        initial_token_a_price_denominator: u64::MAX,
    };

    // before putting in 2^63 A tokens, there's not enough to get any B tokens out
    for exp in 0..63 {
        let result = curve.swap_without_fees(
            2_u128.pow(exp),
            0,
            1_00000_00000_00000_00000,
            TradeDirection::AtoB,
        );
        assert!(result.is_none());
    }

    // there's a narrow band where we can swap in a bunch of token A for
    // a small amount of token B
    let result = curve
        .swap_without_fees(
            u64::MAX.into(),
            0,
            1_00000_00000_00000_00000,
            TradeDirection::AtoB,
        )
        .unwrap();

    assert_eq!(
        result,
        SwapWithoutFeesResult {
            source_amount_swapped: u64::MAX as u128,
            destination_amount_swapped: 1
        }
    );

    // putting in u128 max tokens works too, so this won't ever overflow
    let result = curve
        .swap_without_fees(
            u128::MAX,
            0,
            1_00000_00000_00000_00000,
            TradeDirection::AtoB,
        )
        .unwrap();
    assert_eq!(
        result,
        SwapWithoutFeesResult {
            source_amount_swapped: u128::MAX,
            // a little rounded down from real value of 6.0740009999e9
            destination_amount_swapped: 6074000998
        }
    );
}

#[test]
fn swap_very_large_slope() {
    // curve with slope = 2^59
    let curve = LinearPriceCurve {
        slope_numerator: 2u64.pow(59),
        slope_denominator: 1,
        initial_token_a_price_numerator: u64::MAX - 1,
        initial_token_a_price_denominator: u64::MAX,
    };

    // testing a -> b

    // put in 2^64 - 1 A tokens
    let result = curve.swap_without_fees(
        (u64::MAX).into(),
        0,
        1_00000_00000_00000_00000,
        TradeDirection::AtoB,
    );
    assert_eq!(
        result.unwrap(),
        SwapWithoutFeesResult {
            source_amount_swapped: u64::MAX.into(),
            destination_amount_swapped: 7
        }
    );

    // testing b -> a on the same curve
    let result = curve
        .swap_without_fees(
            3,
            0,
            18446744073709551615,
            TradeDirection::BtoA,
        )
        .unwrap();

    assert_eq!(result.source_amount_swapped, 3);
    assert_eq!(
        result.destination_amount_swapped,
        // note because of the drastic slope, the rounding error from sqrt is a lot
        // from the exact value of 13835058055282163707
        11240984669916758010
    );

    // now (with actual A numbers above), swap balance is 7205759403792793605
    let result = curve
        .swap_without_fees(
            2,
            0,
            7205759403792793605,
            TradeDirection::BtoA,
        )
        .unwrap();

    assert_eq!(result.source_amount_swapped, 2);
    assert_eq!(
        result.destination_amount_swapped,
        // same note as above - rounded off from exact amount of
        // 6052837899185946627
        2594073385365405697
    );

    // now (with actual A numbers above), swap balance is 2594073385365405699
    let result = curve
        .swap_without_fees(
            3,
            0,
            2594073385365405699,
            TradeDirection::BtoA,
        )
        .unwrap();

    assert_eq!(result.source_amount_swapped, 3);
    assert_eq!(result.destination_amount_swapped, 2305843009213693954);

    // same as above but with a huge token b, make sure we only take the required amount
    let result = curve
        .swap_without_fees(
            u128::MAX,
            0,
            2594073385365405699,
            TradeDirection::BtoA,
        )
        .unwrap();

    assert_eq!(
        result.source_amount_swapped,
        3 // should still only take this much B
    );
    assert_eq!(result.destination_amount_swapped, 2594073385365405699);
}

#[test]
fn swap_is_slope_valid() {
    // 0 should be Err
    let curve = LinearPriceCurve {
        slope_numerator: 0,
        slope_denominator: 1_000_000_000_001,
        initial_token_a_price_numerator: 1,
        initial_token_a_price_denominator: 1,
    };
    assert!(!curve.validate().is_ok());

    // undef should be Err
    let curve = LinearPriceCurve {
        slope_numerator: 1,
        slope_denominator: 0,
        initial_token_a_price_numerator: 1,
        initial_token_a_price_denominator: 1,
    };
    assert!(!curve.validate().is_ok());

    // less than 1e-18 should be Err
    let curve = LinearPriceCurve {
        slope_numerator: 1,
        slope_denominator: 1_000_000_000_000_000_001,
        initial_token_a_price_numerator: 1,
        initial_token_a_price_denominator: 1,
    };
    assert!(!curve.validate().is_ok());

    // 1e-18 should be Ok
    let curve = LinearPriceCurve {
        slope_numerator: 1,
        slope_denominator: 1_000_000_000_000_000_000,
        initial_token_a_price_numerator: 1,
        initial_token_a_price_denominator: 1,
    };
    assert!(curve.validate().is_ok());

    // a shallow but representable slope - should be Ok
    let curve = LinearPriceCurve {
        slope_numerator: 37,
        slope_denominator: 1_400_000_000_000_000_000,
        initial_token_a_price_numerator: 1,
        initial_token_a_price_denominator: 1,
    };
    assert!(curve.validate().is_ok());

    // undef token a price should be Err
    let curve = LinearPriceCurve {
        slope_numerator: 1,
        slope_denominator: 1_000_000_000_000,
        initial_token_a_price_numerator: 1,
        initial_token_a_price_denominator: 0,
    };
    assert!(!curve.validate().is_ok());
}

#[test]
fn minimum_token_exchange_rounding() {
    let curve = LinearPriceCurve {
        slope_numerator: 1,
        slope_denominator: 1_000_000_000_000,
        initial_token_a_price_numerator: 0,
        initial_token_a_price_denominator: 1,
    };
    let starting_supply_b: u128 = 10_000_000;
    // swap at least `step` tokens at a time
    let step = 1;

    let mut swap_supply_a = 0;
    let mut swap_supply_b: u128 = starting_supply_b;

    while swap_supply_b > 0 {
        let mut amount_a = step;
        loop {
            let result = curve.swap_without_fees(
                amount_a,
                swap_supply_a,
                swap_supply_b,
                TradeDirection::AtoB,
            );

            if result.is_some() {
                let SwapWithoutFeesResult {
                    source_amount_swapped,
                    destination_amount_swapped,
                } = result.unwrap();
                swap_supply_a += source_amount_swapped;
                swap_supply_b -= destination_amount_swapped;
                break;
            } else {
                // if result was none, there wasn't enough a token to get out any b, so try a bit more
                amount_a += step;
            }
        }
    }

    // at this point, swap has 0 b and has taken in `swap_supply_a` amount of token a
    assert!(swap_supply_b == 0);
    assert!(swap_supply_a > 0);

    // now swap all the way back from b to a
    while swap_supply_a > 0 {
        // usually (for small slope curves), it takes a lot of b to get back 1 a,
        // so just precalculate a reasonable starting point instead of starting from 1
        let current_b_value = curve
            .b_value_with_amt_a_locked_quadratic(
                &(DFSPreciseNumber::new(swap_supply_a).unwrap()),
                false,
            )
            .unwrap()
            .to_imprecise()
            .unwrap();

        let next_b_value = curve
            .b_value_with_amt_a_locked_quadratic(
                &(DFSPreciseNumber::new(swap_supply_a - 1).unwrap()),
                true,
            )
            .unwrap()
            .to_imprecise()
            .unwrap();

        let mut amount_b = current_b_value - next_b_value - 10;
        loop {
            let result = curve.swap_without_fees(
                amount_b,
                swap_supply_b,
                swap_supply_a,
                TradeDirection::BtoA,
            );

            if result.is_some() {
                let SwapWithoutFeesResult {
                    source_amount_swapped,
                    destination_amount_swapped,
                } = result.unwrap();
                swap_supply_b += source_amount_swapped;
                swap_supply_a -= destination_amount_swapped;
                break;
            } else {
                // if result was none, there wasn't enough b token to get out any a, so try a bit more
                amount_b += step;
            }
        }
    }

    // make sure some user can't get out all the a while making a profit on b, i.e.
    // the swap should now have more b in it than we started with
    assert!(swap_supply_a == 0);
    assert!(swap_supply_b >= starting_supply_b);
}

#[test]
fn solve_quadratic_positive_root_cases() {
    // e == 0
    // x^2 - 25, x = -5 and 5
    let result = solve_quadratic_positive_root(
        &(DFSPreciseNumber::new(1).unwrap()),
        &(DFSPreciseNumber::new(1).unwrap()),
        &(DFSPreciseNumber::new(0).unwrap()),
        &(DFSPreciseNumber::new(1).unwrap()),
        &(DFSPreciseNumber::new(25).unwrap()),
        true,
    )
    .unwrap()
    .to_imprecise()
    .unwrap();
    assert_eq!(result, 5); // should return positive root

    // c == 0
    // x^2 + 5x, x = -5 and 0
    let result = solve_quadratic_positive_root(
        &(DFSPreciseNumber::new(5).unwrap()),
        &(DFSPreciseNumber::new(5).unwrap()), // not reducing to test division
        &(DFSPreciseNumber::new(10).unwrap()),
        &(DFSPreciseNumber::new(2).unwrap()), // not reducing to test division
        &(DFSPreciseNumber::new(0).unwrap()),
        true,
    )
    .unwrap()
    .to_imprecise()
    .unwrap();
    assert_eq!(result, 0); // should return positive root

    // all nonzero
    // x^2 + 4x - 5, x = -5 and 1
    let result = solve_quadratic_positive_root(
        &(DFSPreciseNumber::new(3).unwrap()),
        &(DFSPreciseNumber::new(3).unwrap()), // not reducing to test division
        &(DFSPreciseNumber::new(28).unwrap()),
        &(DFSPreciseNumber::new(7).unwrap()), // not reducing to test division
        &(DFSPreciseNumber::new(5).unwrap()),
        true,
    )
    .unwrap()
    .to_imprecise()
    .unwrap();
    assert_eq!(result, 1); // should return positive root
}
