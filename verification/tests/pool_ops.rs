//! Tests of the raw-amount pool operations.
use pool_math::MathError;
use pool_math::pool;

#[test]
fn join_quote_over_raw_amounts() {
    // Balances of 50 tokens each, weights one half, supply 100 shares,
    // fee 0.1%: the one-sided deposit of 10 mints 9 whole shares.
    let weights = [500_000_000_000_000_000u128, 500_000_000_000_000_000u128];
    let r = pool::join_exact_tokens_in_for_bpt_out(
        &[50, 50], &weights, &[10, 0], 100, 1_000_000_000_000_000,
    );
    assert_eq!(r, Ok((9, 109)));
}

#[test]
fn join_quote_rejects_a_worthless_deposit() {
    let weights = [500_000_000_000_000_000u128, 500_000_000_000_000_000u128];
    let r = pool::join_exact_tokens_in_for_bpt_out(
        &[50, 50], &weights, &[0, 0], 100, 1_000_000_000_000_000,
    );
    assert_eq!(r, Err(MathError::InvalidTrade));
}

#[test]
fn exit_quote_over_raw_amounts() {
    let weights = [500_000_000_000_000_000u128, 500_000_000_000_000_000u128];
    let r = pool::exit_exact_bpt_in_for_tokens_out(
        &[50, 50], &weights, 10, 100, 1_000_000_000_000_000,
    )
    .unwrap();
    assert_eq!(r.0, vec![9, 9]);
    assert_eq!(r.1, 90);
}

#[test]
fn exit_quote_rejects_bad_share_amounts() {
    let weights = [500_000_000_000_000_000u128, 500_000_000_000_000_000u128];
    assert_eq!(
        pool::exit_exact_bpt_in_for_tokens_out(&[50, 50], &weights, 0, 100, 0),
        Err(MathError::InvalidTrade),
    );
    assert_eq!(
        pool::exit_exact_bpt_in_for_tokens_out(&[50, 50], &weights, 101, 100, 0),
        Err(MathError::InvalidTrade),
    );
}

#[test]
fn swap_quote_honors_the_minimum() {
    let w = 500_000_000_000_000_000u128;
    let fee = 1_000_000_000_000_000u64;
    assert_eq!(
        pool::swap_exact_token_in_for_token_out(50, w, 50, w, 10, fee, 8),
        Ok(8),
    );
    assert_eq!(
        pool::swap_exact_token_in_for_token_out(50, w, 50, w, 10, fee, 9),
        Err(MathError::InvalidTrade),
    );
}
