//! 18-decimal fixed-point helpers (`10^18` stands for `1.0`).
//!
//! Every primitive carries its exact mathematical definition as a spec
//! mirror over natural numbers, including the precise conditions under
//! which the 256-bit range is exceeded.  Exponentiation is integer-only:
//! identical inputs give identical outputs on every host.
use vstd::prelude::*;

verus! {

use vstd::arithmetic::div_mod::lemma_div_is_ordered;
use vstd::arithmetic::div_mod::lemma_div_multiples_vanish;
use vstd::arithmetic::div_mod::lemma_small_mod;
use vstd::arithmetic::mul::lemma_mul_inequality;
use vstd::arithmetic::power2::lemma2_to64;
use vstd::arithmetic::power2::lemma2_to64_rest;
use vstd::arithmetic::power2::lemma_pow2_pos;
use vstd::arithmetic::power2::lemma_pow2_unfold;
use vstd::arithmetic::power2::pow2;
use crate::MathError;
use crate::u256::U256;
use crate::u256::p128;
use crate::u256::p256;
use crate::u256::sqrt_nat;

/// Fixed-point representation of `1.0`.
pub const ONE: u128 = 1_000_000_000_000_000_000;

/// `2^64`, the denominator of the binary fraction used by [`pow_down`].
pub const FRAC_SCALE: u128 = 0x1_0000_0000_0000_0000;

/// The value `1.0` as a [`U256`].
pub fn one() -> (r: U256)
    ensures
        r@ == ONE as nat,
{
    U256::from_u128(ONE)
}

/// Forgets the representation of a result, keeping its value.
pub open spec fn res_val(r: Result<U256, MathError>) -> Result<nat, MathError> {
    match r {
        Ok(v) => Ok(v@),
        Err(e) => Err(e),
    }
}

/// `floor(a * b / ONE)`; overflows when the raw product does.
pub open spec fn spec_mul_down(a: nat, b: nat) -> Result<nat, MathError> {
    if a * b < p256() {
        Ok((a * b) / (ONE as nat))
    } else {
        Err(MathError::Overflow)
    }
}

/// `ceil(a * b / ONE)` computed as `(a*b + ONE - 1) / ONE`, with zero
/// short-circuited; overflows when `a*b + ONE` leaves the 256-bit range.
pub open spec fn spec_mul_up(a: nat, b: nat) -> Result<nat, MathError> {
    if a == 0 || b == 0 {
        Ok(0)
    } else if a * b + ONE < p256() {
        Ok(((a * b + ONE - 1) as nat) / (ONE as nat))
    } else {
        Err(MathError::Overflow)
    }
}

/// `floor(a * ONE / b)`; overflows when the scaled numerator does.
pub open spec fn spec_div_down(a: nat, b: nat) -> Result<nat, MathError> {
    if a * ONE < p256() {
        Ok(((a * ONE) as nat) / b)
    } else {
        Err(MathError::Overflow)
    }
}

/// `ceil(a * ONE / b)` computed as `(a*ONE + b - 1) / b`, with zero
/// short-circuited; overflows when `a*ONE + b` leaves the 256-bit range.
pub open spec fn spec_div_up(a: nat, b: nat) -> Result<nat, MathError> {
    if a == 0 {
        Ok(0)
    } else if a * ONE < p256() && a * ONE + b < p256() {
        Ok((((a * ONE + b) - 1) as nat) / b)
    } else {
        Err(MathError::Overflow)
    }
}

/// Multiplies two fixed-point numbers, rounding down.
pub fn mul_down(a: U256, b: U256) -> (r: Result<U256, MathError>)
    ensures
        res_val(r) == spec_mul_down(a@, b@),
{
    match a.checked_mul(b) {
        Some(p) => {
            let (q, _rem) = p.div_rem(one());
            Ok(q)
        },
        None => Err(MathError::Overflow),
    }
}

/// Multiplies two fixed-point numbers, rounding up.
pub fn mul_up(a: U256, b: U256) -> (r: Result<U256, MathError>)
    ensures
        res_val(r) == spec_mul_up(a@, b@),
{
    if a.is_zero() || b.is_zero() {
        return Ok(U256::zero());
    }
    let p = match a.checked_mul(b) {
        Some(p) => p,
        None => {
            return Err(MathError::Overflow);
        },
    };
    let t = match p.checked_add(one()) {
        Some(t) => t,
        None => {
            return Err(MathError::Overflow);
        },
    };
    let n = t.minus(U256::from_u128(1));
    let (q, _rem) = n.div_rem(one());
    Ok(q)
}

/// Divides two fixed-point numbers, rounding down.
pub fn div_down(a: U256, b: U256) -> (r: Result<U256, MathError>)
    requires
        b@ != 0,
    ensures
        res_val(r) == spec_div_down(a@, b@),
{
    match a.checked_mul(one()) {
        Some(p) => {
            let (q, _rem) = p.div_rem(b);
            Ok(q)
        },
        None => Err(MathError::Overflow),
    }
}

/// Divides two fixed-point numbers, rounding up.
pub fn div_up(a: U256, b: U256) -> (r: Result<U256, MathError>)
    requires
        b@ != 0,
    ensures
        res_val(r) == spec_div_up(a@, b@),
{
    if a.is_zero() {
        return Ok(U256::zero());
    }
    let p = match a.checked_mul(one()) {
        Some(p) => p,
        None => {
            return Err(MathError::Overflow);
        },
    };
    let t = match p.checked_add(b) {
        Some(t) => t,
        None => {
            return Err(MathError::Overflow);
        },
    };
    let n = t.minus(U256::from_u128(1));
    let (q, _rem) = n.div_rem(b);
    Ok(q)
}

/// `ONE - x`, the fixed-point complement.  The caller keeps `x` within
/// `[0, ONE]`; above `ONE` the complement has no unsigned meaning.
pub fn complement(x: U256) -> (r: U256)
    requires
        x@ <= ONE as nat,
    ensures
        r@ == ONE as nat - x@,
{
    one().minus(x)
}

/// Bit `j` of `e`.
pub open spec fn bit_of(e: nat, j: nat) -> bool {
    (e / pow2(j)) % 2 == 1
}

/// Square-and-multiply over the low 128 bits of the exponent, most
/// significant bit first, every step rounding up: the remaining steps of
/// [`pow_up`] once the running base is `b`, the accumulator `r`, and the
/// next bit index `j`.
pub open spec fn spec_pow_up_from(b: nat, r: nat, e: nat, j: int) -> Result<nat, MathError>
    decreases j + 1,
{
    if j < 0 {
        Ok(r)
    } else {
        match spec_mul_up(b, b) {
            Err(er) => Err(er),
            Ok(b2) => if bit_of(e, j as nat) {
                match spec_mul_up(r, b2) {
                    Err(er) => Err(er),
                    Ok(r2) => spec_pow_up_from(b2, r2, e, j - 1),
                }
            } else {
                spec_pow_up_from(b2, r, e, j - 1)
            },
        }
    }
}

/// Up-rounded exponentiation: `ONE` on a zero exponent, zero on a zero
/// base, otherwise square-and-multiply over the 128 low bits of `e`.
pub open spec fn spec_pow_up(b: nat, e: nat) -> Result<nat, MathError> {
    if e == 0 {
        Ok(ONE as nat)
    } else if b == 0 {
        Ok(0)
    } else {
        spec_pow_up_from(b, ONE as nat, e % p128(), 127)
    }
}

/// Raises `base` to `exp`, rounding up at every step.
///
/// The exponent's low 128 bits are walked from the most significant
/// downward; the running base is squared with [`mul_up`] at each position
/// and multiplied into the result wherever the bit is set.
pub fn pow_up(base: U256, exp: U256) -> (r: Result<U256, MathError>)
    ensures
        res_val(r) == spec_pow_up(base@, exp@),
{
    if exp.is_zero() {
        return Ok(one());
    }
    if base.is_zero() {
        return Ok(U256::zero());
    }
    let e: u128 = exp.low_u128();
    let mut b = base;
    let mut acc = one();
    let mut p: u128 = 0x8000_0000_0000_0000_0000_0000_0000_0000u128;
    let mut i: usize = 128;
    proof {
        crate::u256::lemma_pow2_127();
    }
    while 0 < i
        invariant
            i <= 128,
            0 < i ==> p as nat == pow2((i - 1) as nat),
            spec_pow_up_from(b@, acc@, e as nat, i - 1) == spec_pow_up(base@, exp@),
        decreases i,
    {
        i = i - 1;
        proof {
            lemma_pow2_pos(i as nat);
        }
        b = match mul_up(b, b) {
            Ok(v) => v,
            Err(er) => {
                return Err(er);
            },
        };
        if (e / p) % 2 == 1 {
            acc = match mul_up(acc, b) {
                Ok(v) => v,
                Err(er) => {
                    return Err(er);
                },
            };
        }
        if 0 < i {
            p = p / 2;
            proof {
                lemma_pow2_unfold(i as nat);
            }
        }
    }
    Ok(acc)
}

/// `floor(sqrt(v * ONE))`: the square root in fixed-point, rounded down.
pub open spec fn spec_sqrt_down(v: nat) -> Result<nat, MathError> {
    if v * ONE < p256() {
        Ok(sqrt_nat((v * ONE) as nat))
    } else {
        Err(MathError::Overflow)
    }
}

/// Fixed-point square root, rounding down.
pub fn sqrt_down(v: U256) -> (r: Result<U256, MathError>)
    ensures
        res_val(r) == spec_sqrt_down(v@),
{
    match v.checked_mul(one()) {
        Some(p) => Ok(p.isqrt()),
        None => Err(MathError::Overflow),
    }
}

/// Square-and-multiply for a whole-number exponent `n`, least significant
/// bit first, every step rounding down.
pub open spec fn spec_pow_int_down(acc: nat, b: nat, n: nat) -> Result<nat, MathError>
    decreases n,
{
    if n == 0 {
        Ok(acc)
    } else {
        let step = if n % 2 == 1 {
            spec_mul_down(acc, b)
        } else {
            Ok(acc)
        };
        match step {
            Err(er) => Err(er),
            Ok(a2) => if n / 2 == 0 {
                Ok(a2)
            } else {
                match spec_mul_down(b, b) {
                    Err(er) => Err(er),
                    Ok(b2) => spec_pow_int_down(a2, b2, n / 2),
                }
            },
        }
    }
}

/// The remaining steps of the binary-fraction walk of [`pow_down`]: `z`
/// is the current repeated square root of the base, `r` the accumulator,
/// and `j` the next bit of the 64-bit fraction `m`.
pub open spec fn spec_pow_frac_down(z: nat, r: nat, m: nat, j: int) -> Result<nat, MathError>
    decreases j + 1,
{
    if j < 0 {
        Ok(r)
    } else {
        match spec_sqrt_down(z) {
            Err(er) => Err(er),
            Ok(z2) => if bit_of(m, j as nat) {
                match spec_mul_down(r, z2) {
                    Err(er) => Err(er),
                    Ok(r2) => spec_pow_frac_down(z2, r2, m, j - 1),
                }
            } else {
                spec_pow_frac_down(z2, r, m, j - 1)
            },
        }
    }
}

/// Down-rounded exponentiation of `b` to the fixed-point exponent `e`:
/// the whole part of `e` by square-and-multiply, the fractional part as a
/// 64-bit binary fraction walked over repeated square roots.  Integer
/// arithmetic only, so every host computes the same value.
pub open spec fn spec_pow_down(b: nat, e: nat) -> Result<nat, MathError> {
    if e == 0 {
        Ok(ONE as nat)
    } else if b == 0 {
        Ok(0)
    } else {
        let m = (((e % (ONE as nat)) * FRAC_SCALE) as nat) / (ONE as nat);
        match spec_pow_int_down(ONE as nat, b, e / (ONE as nat)) {
            Err(er) => Err(er),
            Ok(whole) => if m == 0 {
                Ok(whole)
            } else {
                spec_pow_frac_down(b, whole, m as nat, 63)
            },
        }
    }
}

/// Raises `base` to the fixed-point exponent `exp`, rounding down at
/// every step; deterministic across hosts.
///
/// The whole part of the exponent is applied by binary exponentiation;
/// the fractional part is scaled to a 64-bit binary fraction, and for
/// each set bit the corresponding repeated square root of the base is
/// multiplied into the result.
pub fn pow_down(base: U256, exp: U256) -> (r: Result<U256, MathError>)
    ensures
        res_val(r) == spec_pow_down(base@, exp@),
{
    if exp.is_zero() {
        return Ok(one());
    }
    if base.is_zero() {
        return Ok(U256::zero());
    }
    let (n, f) = exp.div_rem(one());
    let mut acc = one();
    let mut b = base;
    let mut n_cur = n;
    let ghost whole_result = spec_pow_int_down(ONE as nat, base@, exp@ / (ONE as nat));
    while !n_cur.is_zero()
        invariant
            base@ != 0,
            exp@ != 0,
            f@ == exp@ % (ONE as nat),
            whole_result == spec_pow_int_down(ONE as nat, base@, exp@ / (ONE as nat)),
            spec_pow_int_down(acc@, b@, n_cur@) == whole_result,
        decreases n_cur@,
    {
        if n_cur.is_odd() {
            acc = match mul_down(acc, b) {
                Ok(v) => v,
                Err(er) => {
                    return Err(er);
                },
            };
        }
        n_cur = n_cur.half();
        if !n_cur.is_zero() {
            b = match mul_down(b, b) {
                Ok(v) => v,
                Err(er) => {
                    return Err(er);
                },
            };
        }
    }
    let fl: u128 = f.low_u128();
    proof {
        lemma_small_mod(f@, p128());
        lemma_mul_inequality(fl as int, (ONE - 1) as int, FRAC_SCALE as int);
    }
    let m: u128 = (fl * FRAC_SCALE) / ONE;
    if m == 0 {
        return Ok(acc);
    }
    let mut z = base;
    let mut p: u128 = 0x8000_0000_0000_0000u128;
    let mut i: usize = 64;
    proof {
        lemma2_to64();
        lemma2_to64_rest();
    }
    while 0 < i
        invariant
            i <= 64,
            0 < i ==> p as nat == pow2((i - 1) as nat),
            spec_pow_frac_down(z@, acc@, m as nat, i - 1) == spec_pow_down(base@, exp@),
        decreases i,
    {
        i = i - 1;
        proof {
            lemma_pow2_pos(i as nat);
        }
        z = match sqrt_down(z) {
            Ok(v) => v,
            Err(er) => {
                return Err(er);
            },
        };
        if (m / p) % 2 == 1 {
            acc = match mul_down(acc, z) {
                Ok(v) => v,
                Err(er) => {
                    return Err(er);
                },
            };
        }
        if 0 < i {
            p = p / 2;
            proof {
                lemma_pow2_unfold(i as nat);
            }
        }
    }
    Ok(acc)
}

/// Multiplying down two values at most `ONE` stays at most `ONE` and
/// cannot overflow.
pub proof fn lemma_mul_down_le_one(a: nat, b: nat)
    requires
        a <= ONE,
        b <= ONE,
    ensures
        spec_mul_down(a, b) == Ok::<nat, MathError>((a * b) / (ONE as nat)),
        (a * b) / (ONE as nat) <= ONE,
        (a * b) / (ONE as nat) <= a,
{
    lemma_mul_inequality(b as int, ONE as int, a as int);
    assert(a * b == b * a) by (nonlinear_arith);
    lemma_mul_inequality(a as int, ONE as int, ONE as int);
    lemma_div_is_ordered((a * b) as int, (a * ONE) as int, ONE as int);
    lemma_div_multiples_vanish(a as int, ONE as int);
    lemma_div_is_ordered((a * b) as int, (ONE * ONE) as int, ONE as int);
    lemma_div_multiples_vanish(ONE as int, ONE as int);
}

/// Dividing down a value by one at least as large stays at most `ONE`.
pub proof fn lemma_div_down_le_one(a: nat, b: nat)
    requires
        a <= b,
        0 < b,
    ensures
        match spec_div_down(a, b) {
            Ok(v) => v <= ONE,
            Err(_) => true,
        },
{
    if a * ONE < p256() {
        lemma_mul_inequality(a as int, b as int, ONE as int);
        lemma_div_is_ordered((a * ONE) as int, (b * ONE) as int, b as int);
        lemma_div_multiples_vanish(ONE as int, b as int);
        assert(b as int * ONE as int == (b * ONE) as int);
    }
}

/// Dividing up a value by one no larger gives at least `ONE`.
pub proof fn lemma_div_up_ge_one(a: nat, b: nat)
    requires
        b <= a,
        0 < b,
    ensures
        match spec_div_up(a, b) {
            Ok(v) => ONE <= v,
            Err(_) => true,
        },
{
    if a * ONE < p256() && a * ONE + b < p256() {
        lemma_mul_inequality(b as int, a as int, ONE as int);
        lemma_div_is_ordered((b * ONE) as int, ((a * ONE + b) - 1) as int, b as int);
        lemma_div_multiples_vanish(ONE as int, b as int);
        assert(b as int * ONE as int == (b * ONE) as int);
    }
}

/// The down-rounded square root of a value at most `ONE` is at most
/// `ONE` and cannot overflow.
pub proof fn lemma_sqrt_down_le_one(z: nat)
    requires
        z <= ONE,
    ensures
        spec_sqrt_down(z) == Ok::<nat, MathError>(sqrt_nat((z * ONE) as nat)),
        sqrt_nat((z * ONE) as nat) <= ONE,
{
    lemma_mul_inequality(z as int, ONE as int, ONE as int);
    crate::u256::lemma_sqrt_def((z * ONE) as nat);
    let r = sqrt_nat((z * ONE) as nat);
    if r > ONE {
        assert(((ONE as nat) + 1) * ((ONE as nat) + 1) <= r * r) by (nonlinear_arith)
            requires
                (ONE as nat) + 1 <= r,
        ;
        assert((ONE as nat) * (ONE as nat) < ((ONE as nat) + 1) * ((ONE as nat) + 1))
            by (nonlinear_arith);
    }
}

/// Whole-number exponentiation of a base at most `ONE` with an
/// accumulator at most `ONE` stays at most `ONE` and cannot overflow.
pub proof fn lemma_pow_int_down_le_one(acc: nat, b: nat, n: nat)
    requires
        acc <= ONE,
        b <= ONE,
    ensures
        match spec_pow_int_down(acc, b, n) {
            Ok(v) => v <= ONE,
            Err(_) => false,
        },
    decreases n,
{
    if n != 0 {
        if n % 2 == 1 {
            lemma_mul_down_le_one(acc, b);
        }
        if n / 2 != 0 {
            lemma_mul_down_le_one(b, b);
            let a2 = if n % 2 == 1 {
                (acc * b) / (ONE as nat)
            } else {
                acc
            };
            lemma_pow_int_down_le_one(a2, (b * b) / (ONE as nat), n / 2);
        }
    }
}

/// The binary-fraction walk over a base at most `ONE` stays at most
/// `ONE` and cannot overflow.
pub proof fn lemma_pow_frac_down_le_one(z: nat, r: nat, m: nat, j: int)
    requires
        z <= ONE,
        r <= ONE,
    ensures
        match spec_pow_frac_down(z, r, m, j) {
            Ok(v) => v <= ONE,
            Err(_) => false,
        },
    decreases j + 1,
{
    if j >= 0 {
        lemma_sqrt_down_le_one(z);
        let z2 = sqrt_nat((z * ONE) as nat);
        if bit_of(m, j as nat) {
            lemma_mul_down_le_one(r, z2);
            lemma_pow_frac_down_le_one(z2, (r * z2) / (ONE as nat), m, j - 1);
        } else {
            lemma_pow_frac_down_le_one(z2, r, m, j - 1);
        }
    }
}

/// Down-rounded exponentiation never exceeds `ONE` on a base at most
/// `ONE`, and never overflows there.
pub proof fn lemma_pow_down_le_one(b: nat, e: nat)
    requires
        b <= ONE,
    ensures
        match spec_pow_down(b, e) {
            Ok(v) => v <= ONE,
            Err(_) => false,
        },
{
    if e != 0 && b != 0 {
        lemma_pow_int_down_le_one(ONE as nat, b, e / (ONE as nat));
        let m = (((e % (ONE as nat)) * FRAC_SCALE) as nat) / (ONE as nat);
        if m != 0 {
            match spec_pow_int_down(ONE as nat, b, e / (ONE as nat)) {
                Ok(whole) => {
                    lemma_pow_frac_down_le_one(b, whole, m, 63);
                },
                Err(_) => {},
            }
        }
    }
}

/// Default exponentiation: rounds down, as the swap and invariant
/// formulas require.
pub fn pow(base: U256, exp: U256) -> (r: Result<U256, MathError>)
    ensures
        res_val(r) == spec_pow_down(base@, exp@),
{
    pow_down(base, exp)
}

} // verus!
