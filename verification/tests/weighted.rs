//! Tests of the weighted-pool pricing formulas.
use pool_math::MathError;
use pool_math::U256;
use pool_math::fixed;
use pool_math::weighted_math;

/// Fixed-point encoding of a small decimal.
fn fp(v: f64) -> U256 {
    U256::from_u128((v * 1e18) as u128)
}

#[test]
fn join_exit_round_trip() {
    let balances = [fp(50.0), fp(50.0)];
    let weights = [fp(0.5), fp(0.5)];
    let amounts_in = [fp(10.0), fp(0.0)];
    let total_bpt = fp(100.0);
    let swap_fee = fp(0.001);

    let bpt_out = weighted_math::calc_bpt_out_given_exact_tokens_in(
        &balances, &weights, &amounts_in, total_bpt, swap_fee,
    )
    .unwrap();
    assert!(bpt_out > U256::zero());

    // Burn the same BPT via a proportional exit against the post-join
    // supply: the one-sided deposit was worth about half its face value
    // in token 0, so roughly that much comes back.
    let amounts_out = weighted_math::calc_tokens_out_given_exact_bpt_in(
        &balances,
        bpt_out,
        total_bpt.checked_add(bpt_out).unwrap(),
        fp(0.0),
    )
    .unwrap();
    assert!(amounts_out[0] > fp(4.0));
}

#[test]
fn join_mints_expected_shares() {
    let balances = [fp(50.0), fp(50.0)];
    let weights = [fp(0.5), fp(0.5)];
    let amounts_in = [fp(10.0), fp(0.0)];
    let bpt_out = weighted_math::calc_bpt_out_given_exact_tokens_in(
        &balances, &weights, &amounts_in, fp(100.0), fp(0.001),
    )
    .unwrap();
    assert_eq!(bpt_out, U256::from_u128(9_539_947_051_292_662_100));
}

#[test]
fn invariant_of_equal_balances() {
    let balances = [fp(50.0), fp(50.0)];
    let weights = [fp(0.5), fp(0.5)];
    let inv = weighted_math::calculate_invariant(&balances, &weights).unwrap();
    // The geometric mean of two equal balances: 50, up to rounding.
    assert_eq!(inv, U256::from_u128(49_999_999_999_999_999_999));
    assert!(inv > fp(49.0));
    assert!(inv < fp(51.0));
}

#[test]
fn invariant_monotone_in_balances() {
    let weights = [fp(0.5), fp(0.5)];
    let inv_small = weighted_math::calculate_invariant(&[fp(50.0), fp(50.0)], &weights).unwrap();
    let inv_large = weighted_math::calculate_invariant(&[fp(60.0), fp(50.0)], &weights).unwrap();
    assert!(inv_small < inv_large);
    assert_eq!(inv_large, U256::from_u128(54_772_255_750_516_611_343));
}

#[test]
fn invariant_of_skewed_weights() {
    let balances = [fp(100.0), fp(25.0)];
    let weights = [fp(0.8), fp(0.2)];
    let inv = weighted_math::calculate_invariant(&balances, &weights).unwrap();
    // 100^0.8 * 25^0.2, down to the deterministic rounding.
    assert_eq!(inv, U256::from_u128(75_785_828_325_519_897_350));
}

#[test]
fn length_mismatch_is_rejected() {
    let a = [fp(50.0), fp(50.0)];
    let b = [fp(0.5)];
    assert_eq!(
        weighted_math::calculate_invariant(&a, &b),
        Err(MathError::LengthMismatch),
    );
    assert_eq!(
        weighted_math::calculate_invariant(&[], &[]),
        Err(MathError::LengthMismatch),
    );
    assert_eq!(
        weighted_math::calc_bpt_out_given_exact_tokens_in(&a, &a, &b, fp(100.0), fp(0.0)),
        Err(MathError::LengthMismatch),
    );
    assert_eq!(
        weighted_math::calc_bpt_in_given_exact_tokens_out(&a, &b, &a, fp(100.0), fp(0.0)),
        Err(MathError::LengthMismatch),
    );
    assert_eq!(
        weighted_math::calc_tokens_out_given_exact_bpt_in(&[], fp(1.0), fp(100.0), fp(0.0)),
        Err(MathError::LengthMismatch),
    );
}

#[test]
fn swap_exact_in_price() {
    let out = weighted_math::calc_out_given_in(
        fp(50.0), fp(0.5), fp(50.0), fp(0.5), fp(10.0), fp(0.001),
    )
    .unwrap();
    assert_eq!(out, U256::from_u128(8_326_387_731_288_548_100));
}

#[test]
fn swap_round_trip_never_shorts_the_pool() {
    let balance_in = fp(50.0);
    let balance_out = fp(50.0);
    let weight = fp(0.5);
    let fee = fp(0.001);
    let amount_in = fp(10.0);
    let out = weighted_math::calc_out_given_in(
        balance_in, weight, balance_out, weight, amount_in, fee,
    )
    .unwrap();
    let recovered = weighted_math::calc_in_given_out(
        balance_in, weight, balance_out, weight, out, fee,
    )
    .unwrap();
    // Buying back the exact output demands at least the original input.
    assert!(recovered >= amount_in);
    assert_eq!(recovered, fp(10.0));
}

#[test]
fn swap_exact_out_rejects_draining_the_reserve() {
    assert_eq!(
        weighted_math::calc_in_given_out(fp(50.0), fp(0.5), fp(50.0), fp(0.5), fp(60.0), fp(0.001)),
        Err(MathError::InsufficientBalance),
    );
}

#[test]
fn single_token_join_needs_the_exact_power() {
    // The up-rounded power squares its base 128 times, so any supply
    // ratio above one overflows the 256-bit range: the price of a
    // nonzero single-token join is unrepresentable.
    assert_eq!(
        weighted_math::calc_token_in_given_exact_bpt_out(
            fp(50.0), fp(0.5), fp(1.0), fp(100.0), fp(0.001),
        ),
        Err(MathError::Overflow),
    );
    // Minting nothing costs nothing.
    assert_eq!(
        weighted_math::calc_token_in_given_exact_bpt_out(
            fp(50.0), fp(0.5), fp(0.0), fp(100.0), fp(0.001),
        ),
        Ok(U256::zero()),
    );
}

#[test]
fn single_token_exit_price() {
    let out = weighted_math::calc_token_out_given_exact_bpt_in(
        fp(50.0), fp(0.5), fp(10.0), fp(100.0), fp(0.001),
    )
    .unwrap();
    assert_eq!(out, fp(9.4955));
}

#[test]
fn exit_exact_amounts_burns_expected_shares() {
    let balances = [fp(50.0), fp(50.0)];
    let weights = [fp(0.5), fp(0.5)];
    let amounts_out = [fp(10.0), fp(0.0)];
    let bpt_in = weighted_math::calc_bpt_in_given_exact_tokens_out(
        &balances, &weights, &amounts_out, fp(100.0), fp(0.001),
    )
    .unwrap();
    assert_eq!(bpt_in, U256::from_u128(10_562_876_840_771_544_300));
    // Withdrawing costs more shares than the same deposit mints: the fee
    // and the rounding both favor the pool.
    assert!(bpt_in > fp(10.0));
}

#[test]
fn exit_rejects_overdrawn_amounts() {
    let balances = [fp(50.0), fp(50.0)];
    let weights = [fp(0.5), fp(0.5)];
    let amounts_out = [fp(60.0), fp(0.0)];
    assert_eq!(
        weighted_math::calc_bpt_in_given_exact_tokens_out(
            &balances, &weights, &amounts_out, fp(100.0), fp(0.001),
        ),
        Err(MathError::InsufficientBalance),
    );
}

#[test]
fn join_with_degenerate_weights_is_invalid() {
    // Weights so small that the weighted mean ratio falls below one:
    // the taxable excess has no meaning and the join is rejected.
    let balances = [fp(1.0), fp(1.0)];
    let weights = [U256::from_u128(1), U256::from_u128(1)];
    let amounts_in = [fp(1.0), fp(0.0)];
    assert_eq!(
        weighted_math::calc_bpt_out_given_exact_tokens_in(
            &balances, &weights, &amounts_in, fp(100.0), fp(0.001),
        ),
        Err(MathError::InvalidTrade),
    );
}

#[test]
fn proportional_exit_with_fee() {
    let balances = [fp(50.0), fp(50.0)];
    let amounts_out = weighted_math::calc_tokens_out_given_exact_bpt_in(
        &balances, fp(10.0), fp(100.0), fp(0.0),
    )
    .unwrap();
    // Burning a tenth of the supply pays out a tenth of each balance.
    assert_eq!(amounts_out.len(), 2);
    assert_eq!(amounts_out[0], fp(5.0));
    assert_eq!(amounts_out[1], fp(5.0));
    // A protocol exit fee shrinks the burned share first.
    let with_fee = weighted_math::calc_tokens_out_given_exact_bpt_in(
        &balances, fp(10.0), fp(100.0), fp(0.5),
    )
    .unwrap();
    assert_eq!(with_fee[0], fp(2.5));
}
