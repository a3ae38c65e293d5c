//! Laws of the fixed-point layer and the invariant, stated and proved
//! once for all inputs.
use vstd::prelude::*;

verus! {

use vstd::arithmetic::div_mod::lemma_div_is_ordered;
use vstd::arithmetic::div_mod::lemma_fundamental_div_mod;
use vstd::arithmetic::div_mod::lemma_fundamental_div_mod_converse;
use vstd::arithmetic::mul::lemma_mul_inequality;
use crate::MathError;
use crate::fixed::FRAC_SCALE;
use crate::fixed::ONE;
use crate::fixed::bit_of;
use crate::fixed::spec_div_down;
use crate::fixed::spec_div_up;
use crate::fixed::spec_mul_down;
use crate::fixed::spec_mul_up;
use crate::fixed::spec_pow_down;
use crate::fixed::spec_pow_frac_down;
use crate::fixed::spec_pow_int_down;
use crate::fixed::spec_pow_up;
use crate::fixed::spec_sqrt_down;
use crate::u256::lemma_sqrt_def;
use crate::u256::sqrt_nat;
use crate::weighted_math::spec_calc_bpt_in_given_exact_tokens_out;
use crate::weighted_math::spec_calc_bpt_out_given_exact_tokens_in;
use crate::weighted_math::spec_calc_tokens_out_given_exact_bpt_in;
use crate::weighted_math::spec_calculate_invariant;
use crate::weighted_math::spec_invariant_loop;

/// Rounding order of the multiplications: wherever the up-rounded
/// product is defined, the down-rounded product is too, the down-rounded
/// one is exactly `floor(a*b/ONE)`, and the up-rounded one exceeds it by
/// at most one unit.
pub proof fn lemma_mul_rounding_bounds(a: nat, b: nat)
    requires
        spec_mul_up(a, b) is Ok,
    ensures
        spec_mul_down(a, b) == Ok::<nat, MathError>((a * b) / (ONE as nat)),
        match spec_mul_up(a, b) {
            Ok(u) => (a * b) / (ONE as nat) <= u && u <= (a * b) / (ONE as nat) + 1,
            Err(_) => false,
        },
{
    if a == 0 || b == 0 {
        assert(a * b == 0);
    } else {
        let d = (a * b) / (ONE as nat);
        let r = (a * b) % (ONE as nat);
        lemma_fundamental_div_mod((a * b) as int, ONE as int);
        lemma_div_is_ordered((a * b) as int, (a * b + ONE - 1) as int, ONE as int);
        if r == 0 {
            lemma_fundamental_div_mod_converse(
                (a * b + ONE - 1) as int, ONE as int, d as int, (ONE - 1) as int);
        } else {
            lemma_fundamental_div_mod_converse(
                (a * b + ONE - 1) as int, ONE as int, (d + 1) as int, (r - 1) as int);
        }
    }
}

/// Rounding order of the divisions: wherever the up-rounded quotient of
/// nonzero operands is defined, the down-rounded quotient is too, and it
/// never exceeds the up-rounded one.
pub proof fn lemma_div_rounding_order(a: nat, b: nat)
    requires
        a != 0,
        b != 0,
        spec_div_up(a, b) is Ok,
    ensures
        spec_div_down(a, b) is Ok,
        match (spec_div_down(a, b), spec_div_up(a, b)) {
            (Ok(d), Ok(u)) => d <= u,
            _ => false,
        },
{
    lemma_div_is_ordered((a * ONE) as int, ((a * ONE + b) - 1) as int, b as int);
}

/// Exponentiation edge cases: a zero exponent gives `ONE` for any base,
/// and a zero base with a positive exponent gives zero, under both
/// rounding directions.
pub proof fn lemma_pow_edge_cases(base: nat, e: nat)
    ensures
        spec_pow_up(base, 0) == Ok::<nat, MathError>(ONE as nat),
        spec_pow_down(base, 0) == Ok::<nat, MathError>(ONE as nat),
        e > 0 ==> spec_pow_up(0, e) == Ok::<nat, MathError>(0),
        e > 0 ==> spec_pow_down(0, e) == Ok::<nat, MathError>(0),
{
}

/// The complement is an involution on `[0, ONE]`.
pub proof fn lemma_complement_involution(x: nat)
    requires
        x <= ONE,
    ensures
        (ONE - ((ONE - x) as nat)) as nat == x,
{
}

/// Empty and mismatched vectors are rejected with the length-mismatch
/// error before any arithmetic runs, never silently truncated.
pub proof fn lemma_bad_shapes_rejected(
    bs: Seq<nat>,
    ws: Seq<nat>,
    amounts: Seq<nat>,
    total: nat,
    fee: nat,
    bpt: nat,
)
    ensures
        bs.len() == 0 || bs.len() != ws.len() ==> spec_calculate_invariant(bs, ws) == Err::<
            nat,
            MathError,
        >(MathError::LengthMismatch),
        bs.len() == 0 || bs.len() != ws.len() || bs.len() != amounts.len()
            ==> spec_calc_bpt_out_given_exact_tokens_in(bs, ws, amounts, total, fee) == Err::<
            nat,
            MathError,
        >(MathError::LengthMismatch),
        bs.len() == 0 || bs.len() != ws.len() || bs.len() != amounts.len()
            ==> spec_calc_bpt_in_given_exact_tokens_out(bs, ws, amounts, total, fee) == Err::<
            nat,
            MathError,
        >(MathError::LengthMismatch),
        bs.len() == 0 ==> spec_calc_tokens_out_given_exact_bpt_in(bs, bpt, total, fee) == Err::<
            Seq<nat>,
            MathError,
        >(MathError::LengthMismatch),
{
}

/// Down-rounded multiplication is monotone in both operands, and cannot
/// overflow on smaller operands when it did not on larger ones.
pub proof fn lemma_mul_down_monotonic(a1: nat, b1: nat, a2: nat, b2: nat)
    requires
        a1 <= a2,
        b1 <= b2,
        spec_mul_down(a2, b2) is Ok,
    ensures
        match (spec_mul_down(a1, b1), spec_mul_down(a2, b2)) {
            (Ok(v1), Ok(v2)) => v1 <= v2,
            _ => false,
        },
{
    lemma_mul_inequality(a1 as int, a2 as int, b1 as int);
    lemma_mul_inequality(b1 as int, b2 as int, a2 as int);
    assert(a2 * b1 == b1 * a2 && a2 * b2 == b2 * a2) by (nonlinear_arith);
    lemma_div_is_ordered((a1 * b1) as int, (a2 * b2) as int, ONE as int);
}

/// The down-rounded square root is monotone, and cannot overflow on a
/// smaller operand when it did not on a larger one.
pub proof fn lemma_sqrt_down_monotonic(z1: nat, z2: nat)
    requires
        z1 <= z2,
        spec_sqrt_down(z2) is Ok,
    ensures
        match (spec_sqrt_down(z1), spec_sqrt_down(z2)) {
            (Ok(v1), Ok(v2)) => v1 <= v2,
            _ => false,
        },
{
    lemma_mul_inequality(z1 as int, z2 as int, ONE as int);
    lemma_sqrt_def((z1 * ONE) as nat);
    lemma_sqrt_def((z2 * ONE) as nat);
    let r1 = sqrt_nat((z1 * ONE) as nat);
    let r2 = sqrt_nat((z2 * ONE) as nat);
    if r1 > r2 {
        assert((r2 + 1) * (r2 + 1) <= r1 * r1) by (nonlinear_arith)
            requires
                r2 + 1 <= r1,
        ;
    }
}

/// Whole-number exponentiation is monotone in the accumulator and base.
proof fn lemma_pow_int_down_monotonic(acc1: nat, b1: nat, acc2: nat, b2: nat, n: nat)
    requires
        acc1 <= acc2,
        b1 <= b2,
        spec_pow_int_down(acc2, b2, n) is Ok,
    ensures
        match (spec_pow_int_down(acc1, b1, n), spec_pow_int_down(acc2, b2, n)) {
            (Ok(v1), Ok(v2)) => v1 <= v2,
            _ => false,
        },
    decreases n,
{
    if n != 0 {
        if n % 2 == 1 {
            lemma_mul_down_monotonic(acc1, b1, acc2, b2);
        }
        let a1 = if n % 2 == 1 {
            (acc1 * b1) / (ONE as nat)
        } else {
            acc1
        };
        let a2 = if n % 2 == 1 {
            (acc2 * b2) / (ONE as nat)
        } else {
            acc2
        };
        if n / 2 != 0 {
            lemma_mul_down_monotonic(b1, b1, b2, b2);
            lemma_pow_int_down_monotonic(
                a1, (b1 * b1) / (ONE as nat), a2, (b2 * b2) / (ONE as nat), n / 2);
        }
    }
}

/// The binary-fraction walk is monotone in the running root and the
/// accumulator.
proof fn lemma_pow_frac_down_monotonic(z1: nat, r1: nat, z2: nat, r2: nat, m: nat, j: int)
    requires
        z1 <= z2,
        r1 <= r2,
        spec_pow_frac_down(z2, r2, m, j) is Ok,
    ensures
        match (spec_pow_frac_down(z1, r1, m, j), spec_pow_frac_down(z2, r2, m, j)) {
            (Ok(v1), Ok(v2)) => v1 <= v2,
            _ => false,
        },
    decreases j + 1,
{
    if j >= 0 {
        lemma_sqrt_down_monotonic(z1, z2);
        let s1 = sqrt_nat((z1 * ONE) as nat);
        let s2 = sqrt_nat((z2 * ONE) as nat);
        if bit_of(m, j as nat) {
            lemma_mul_down_monotonic(r1, s1, r2, s2);
            lemma_pow_frac_down_monotonic(
                s1, (r1 * s1) / (ONE as nat), s2, (r2 * s2) / (ONE as nat), m, j - 1);
        } else {
            lemma_pow_frac_down_monotonic(s1, r1, s2, r2, m, j - 1);
        }
    }
}

/// Down-rounded exponentiation is monotone in the base: a larger base
/// never gives a smaller power, and a smaller base cannot overflow when
/// the larger one did not.
pub proof fn lemma_pow_down_monotonic(b1: nat, b2: nat, e: nat)
    requires
        b1 <= b2,
        spec_pow_down(b2, e) is Ok,
    ensures
        match (spec_pow_down(b1, e), spec_pow_down(b2, e)) {
            (Ok(v1), Ok(v2)) => v1 <= v2,
            _ => false,
        },
{
    if e != 0 && b1 != 0 {
        lemma_pow_int_down_monotonic(ONE as nat, b1, ONE as nat, b2, e / (ONE as nat));
        let m = (((e % (ONE as nat)) * FRAC_SCALE) as nat) / (ONE as nat);
        if m != 0 {
            match (
                spec_pow_int_down(ONE as nat, b1, e / (ONE as nat)),
                spec_pow_int_down(ONE as nat, b2, e / (ONE as nat)),
            ) {
                (Ok(w1), Ok(w2)) => {
                    lemma_pow_frac_down_monotonic(b1, w1, b2, w2, m, 63);
                },
                _ => {},
            }
        }
    }
}

/// The invariant fold is monotone in the running product and in every
/// remaining balance.
proof fn lemma_invariant_loop_monotonic(
    inv1: nat,
    bs1: Seq<nat>,
    inv2: nat,
    bs2: Seq<nat>,
    ws: Seq<nat>,
    i: int,
)
    requires
        bs1.len() == bs2.len(),
        inv1 <= inv2,
        forall|k: int| 0 <= k < bs1.len() ==> bs1[k] <= #[trigger] bs2[k],
        spec_invariant_loop(inv2, bs2, ws, i) is Ok,
    ensures
        match (spec_invariant_loop(inv1, bs1, ws, i), spec_invariant_loop(inv2, bs2, ws, i)) {
            (Ok(v1), Ok(v2)) => v1 <= v2,
            _ => false,
        },
    decreases bs1.len() - i,
{
    if 0 <= i < bs1.len() {
        lemma_pow_down_monotonic(bs1[i], bs2[i], ws[i]);
        match (spec_pow_down(bs1[i], ws[i]), spec_pow_down(bs2[i], ws[i])) {
            (Ok(p1), Ok(p2)) => {
                lemma_mul_down_monotonic(inv1, p1, inv2, p2);
                match (spec_mul_down(inv1, p1), spec_mul_down(inv2, p2)) {
                    (Ok(n1), Ok(n2)) => {
                        lemma_invariant_loop_monotonic(n1, bs1, n2, bs2, ws, i + 1);
                    },
                    _ => {},
                }
            },
            _ => {},
        }
    }
}

/// Monotonicity of the invariant: with the weights fixed, raising any
/// balance (one or several) never decreases the computed invariant, and
/// the smaller balances cannot overflow when the larger ones did not.
pub proof fn lemma_invariant_monotonic(bs1: Seq<nat>, bs2: Seq<nat>, ws: Seq<nat>)
    requires
        bs1.len() == bs2.len(),
        forall|k: int| 0 <= k < bs1.len() ==> bs1[k] <= #[trigger] bs2[k],
        spec_calculate_invariant(bs2, ws) is Ok,
    ensures
        match (spec_calculate_invariant(bs1, ws), spec_calculate_invariant(bs2, ws)) {
            (Ok(v1), Ok(v2)) => v1 <= v2,
            _ => false,
        },
{
    lemma_invariant_loop_monotonic(ONE as nat, bs1, ONE as nat, bs2, ws, 0);
}

} // verus!
