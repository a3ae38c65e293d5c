//! Tests of the 256-bit integer foundation.
use pool_math::U256;

#[test]
fn add_and_sub_round_trip() {
    let a = U256::from_u128(u128::MAX);
    let b = U256::from_u128(12345);
    let sum = a.checked_add(b).unwrap();
    assert_eq!(sum.checked_sub(b), Some(a));
    assert_eq!(sum.checked_sub(a), Some(b));
    assert!(a < sum);
}

#[test]
fn add_overflows_at_the_top() {
    // 2^256 - 1, built as (2^128-1)^2 + 2*(2^128-1).
    let m = U256::from_u128(u128::MAX);
    let top = m.checked_mul(m).unwrap().checked_add(m).unwrap().checked_add(m).unwrap();
    assert_eq!(top.checked_add(U256::from_u128(1)), None);
    assert_eq!(top.checked_mul(U256::from_u128(2)), None);
    assert_eq!(top.checked_add(U256::zero()), Some(top));
}

#[test]
fn sub_saturates_at_zero() {
    let small = U256::from_u128(3);
    let big = U256::from_u128(5);
    assert_eq!(small.checked_sub(big), None);
    assert_eq!(small.saturating_sub(big), U256::zero());
    assert_eq!(big.saturating_sub(small), U256::from_u128(2));
}

#[test]
fn division_returns_quotient_and_remainder() {
    let (q, r) = U256::from_u128(7).div_rem(U256::from_u128(2));
    assert_eq!(q, U256::from_u128(3));
    assert_eq!(r, U256::from_u128(1));
    // A divisor wider than the dividend leaves everything in the remainder.
    let (q2, r2) = U256::from_u128(3).div_rem(U256::from_u128(10));
    assert_eq!(q2, U256::zero());
    assert_eq!(r2, U256::from_u128(3));
    // Division reaches above the 128-bit line.
    let m = U256::from_u128(u128::MAX);
    let sq = m.checked_mul(m).unwrap();
    let (q3, r3) = sq.div_rem(m);
    assert_eq!(q3, m);
    assert_eq!(r3, U256::zero());
}

#[test]
fn square_root_is_the_exact_floor() {
    let e18 = U256::from_u128(1_000_000_000_000_000_000);
    assert_eq!(e18.isqrt(), U256::from_u128(1_000_000_000));
    assert_eq!(U256::from_u128(2).isqrt(), U256::from_u128(1));
    assert_eq!(U256::zero().isqrt(), U256::zero());
    let m = U256::from_u128(u128::MAX);
    assert_eq!(m.checked_mul(m).unwrap().isqrt(), m);
}

#[test]
fn halving_shifts_the_value_down() {
    assert_eq!(U256::from_u128(5).half(), U256::from_u128(2));
    let m = U256::from_u128(u128::MAX);
    let sq = m.checked_mul(m).unwrap();
    // (2^128-1)^2 / 2 recomputed through division agrees with half().
    let (q, _r) = sq.div_rem(U256::from_u128(2));
    assert_eq!(sq.half(), q);
    assert_eq!(sq.low_u128(), 1);
}
