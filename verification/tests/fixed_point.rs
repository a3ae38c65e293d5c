//! Tests of the fixed-point primitives and exponentiation.
use pool_math::MathError;
use pool_math::U256;
use pool_math::fixed;

/// Fixed-point encoding of a small decimal.
fn fp(v: f64) -> U256 {
    U256::from_u128((v * 1e18) as u128)
}

#[test]
fn mul_div_basic_scenario() {
    assert_eq!(fixed::mul_down(fp(1.5), fp(2.0)), Ok(fp(3.0)));
    assert_eq!(fixed::div_down(fp(3.0), fp(2.0)), Ok(fp(1.5)));
}

#[test]
fn mul_up_exact_product() {
    assert_eq!(fixed::mul_up(fp(1.5), fp(2.0)), Ok(fp(3.0)));
    assert_eq!(fixed::mul_up(fp(0.0), fp(2.0)), Ok(U256::zero()));
}

#[test]
fn mul_rounding_order_samples() {
    // 1/3 * 1/3: the true product has a remainder, so up exceeds down by one unit.
    let third = U256::from_u128(333_333_333_333_333_333);
    let down = fixed::mul_down(third, third).unwrap();
    let up = fixed::mul_up(third, third).unwrap();
    assert_eq!(down, U256::from_u128(111_111_111_111_111_110));
    assert_eq!(up, U256::from_u128(111_111_111_111_111_111));
}

#[test]
fn div_rounding_order_samples() {
    let down = fixed::div_down(fp(1.0), fp(3.0)).unwrap();
    let up = fixed::div_up(fp(1.0), fp(3.0)).unwrap();
    assert_eq!(down, U256::from_u128(333_333_333_333_333_333));
    assert_eq!(up, U256::from_u128(333_333_333_333_333_334));
    assert!(down < up);
}

#[test]
fn mul_overflow_is_reported() {
    // Two products of full 128-bit values multiply past 2^256.
    let big = fixed::mul_down(U256::from_u128(u128::MAX), U256::from_u128(u128::MAX)).unwrap();
    assert_eq!(fixed::mul_down(big, big), Err(MathError::Overflow));
    assert_eq!(fixed::mul_up(big, big), Err(MathError::Overflow));
    // Scaling a numerator just past 2^256 / 10^18 overflows the divisions.
    let bigger = big.checked_add(U256::from_u128(1_000_000_000_000_000_000_000)).unwrap();
    assert_eq!(fixed::div_down(bigger, fp(1.0)), Err(MathError::Overflow));
    assert_eq!(fixed::div_up(bigger, fp(1.0)), Err(MathError::Overflow));
}

#[test]
fn complement_involution_scenario() {
    let x = fp(0.3);
    assert_eq!(fixed::complement(fixed::complement(x)), x);
    assert_eq!(fixed::complement(fixed::one()), U256::zero());
    assert_eq!(fixed::complement(U256::zero()), fixed::one());
}

#[test]
fn pow_edge_cases() {
    let zero = U256::zero();
    assert_eq!(fixed::pow_up(fp(2.0), zero), Ok(fixed::one()));
    assert_eq!(fixed::pow_down(fp(2.0), zero), Ok(fixed::one()));
    assert_eq!(fixed::pow_up(zero, zero), Ok(fixed::one()));
    assert_eq!(fixed::pow_down(zero, zero), Ok(fixed::one()));
    assert_eq!(fixed::pow_up(zero, fp(0.5)), Ok(zero));
    assert_eq!(fixed::pow_down(zero, fp(0.5)), Ok(zero));
    assert_eq!(fixed::pow(zero, fp(2.0)), Ok(zero));
}

#[test]
fn pow_down_square_roots() {
    // x^0.5 is a single square root of the binary-fraction walk, so the
    // result is the exact floor of the real root.
    assert_eq!(
        fixed::pow_down(fp(1.2), fp(0.5)),
        Ok(U256::from_u128(1_095_445_115_010_332_226)),
    );
    assert_eq!(
        fixed::pow_down(fp(50.0), fp(0.5)),
        Ok(U256::from_u128(7_071_067_811_865_475_244)),
    );
    // A whole-number exponent is plain binary exponentiation.
    assert_eq!(fixed::pow_down(fp(1.5), fp(2.0)), Ok(fp(2.25)));
    assert_eq!(fixed::pow_down(fp(0.5), fp(1.0)), Ok(fp(0.5)));
}

#[test]
fn pow_down_multi_bit_fraction() {
    // 2^0.75 combines the second and fourth square roots of the base;
    // each down-rounded step can shave one unit off the exact floor.
    assert_eq!(
        fixed::pow_down(fp(2.0), fp(0.75)),
        Ok(U256::from_u128(1_681_792_830_507_429_084)),
    );
}

#[test]
fn pow_up_walks_integer_bits() {
    // The up-rounded power walks the exponent's raw low 128 bits, so a
    // fractional fixed-point exponent drives the base through dozens of
    // squarings: a base below one collapses to the smallest unit.
    assert_eq!(fixed::pow_up(fp(0.5), fp(0.5)), Ok(U256::from_u128(1)));
    // A base of exactly one is a fixed point of the squaring chain.
    assert_eq!(fixed::pow_up(fixed::one(), fp(0.7)), Ok(fixed::one()));
    // A base above one overflows inside the squaring chain.
    assert_eq!(fixed::pow_up(fp(1.1), fp(0.5)), Err(MathError::Overflow));
}
