//! Weighted-pool pricing formulas.
//!
//! Every function is a stateless computation over fixed-point values: the
//! weighted-product invariant, two-token swap pricing, and the join/exit
//! family with proportional fee taxation.  Each one is specified by an
//! exact mirror over natural numbers, including which error each
//! rejected input produces.
use vstd::prelude::*;

verus! {

use crate::MathError;
use crate::fixed;
use crate::fixed::ONE;
use crate::fixed::res_val;
use crate::fixed::spec_div_down;
use crate::fixed::spec_div_up;
use crate::fixed::spec_mul_down;
use crate::fixed::spec_mul_up;
use crate::fixed::spec_pow_down;
use crate::fixed::spec_pow_up;
use crate::fixed::lemma_div_down_le_one;
use crate::fixed::lemma_div_up_ge_one;
use crate::fixed::lemma_pow_down_le_one;
use crate::u256::U256;
use crate::u256::p256;

/// The numeric values of a sequence of fixed-point numbers.
pub open spec fn vals(s: Seq<U256>) -> Seq<nat> {
    s.map_values(|x: U256| x@)
}

/// The remaining steps of the invariant fold from index `i` with the
/// running product `inv`.
pub open spec fn spec_invariant_loop(inv: nat, bs: Seq<nat>, ws: Seq<nat>, i: int) -> Result<
    nat,
    MathError,
>
    decreases bs.len() - i,
{
    if i < 0 || i >= bs.len() {
        Ok(inv)
    } else {
        match spec_pow_down(bs[i], ws[i]) {
            Err(er) => Err(er),
            Ok(p) => match spec_mul_down(inv, p) {
                Err(er) => Err(er),
                Ok(inv2) => spec_invariant_loop(inv2, bs, ws, i + 1),
            },
        }
    }
}

/// The weighted-product invariant `prod balances[i] ^ weights[i]`,
/// folded left to right with down-rounding at every step.
pub open spec fn spec_calculate_invariant(bs: Seq<nat>, ws: Seq<nat>) -> Result<nat, MathError> {
    if bs.len() == 0 || bs.len() != ws.len() {
        Err(MathError::LengthMismatch)
    } else {
        spec_invariant_loop(ONE as nat, bs, ws, 0)
    }
}

/// Computes the weighted-product invariant of index-aligned balance and
/// weight vectors.  Down-rounding at every step keeps the invariant from
/// ever being overstated.
pub fn calculate_invariant(balances: &[U256], weights: &[U256]) -> (r: Result<U256, MathError>)
    ensures
        res_val(r) == spec_calculate_invariant(vals(balances@), vals(weights@)),
{
    if balances.len() == 0 || balances.len() != weights.len() {
        return Err(MathError::LengthMismatch);
    }
    let ghost target = spec_calculate_invariant(vals(balances@), vals(weights@));
    let mut inv = fixed::one();
    let mut i: usize = 0;
    while i < balances.len()
        invariant
            balances@.len() == weights@.len(),
            i <= balances@.len(),
            target == spec_calculate_invariant(vals(balances@), vals(weights@)),
            spec_invariant_loop(inv@, vals(balances@), vals(weights@), i as int) == target,
        decreases balances@.len() - i,
    {
        let term = match fixed::pow(balances[i], weights[i]) {
            Ok(v) => v,
            Err(er) => {
                return Err(er);
            },
        };
        inv = match fixed::mul_down(inv, term) {
            Ok(v) => v,
            Err(er) => {
                return Err(er);
            },
        };
        i = i + 1;
    }
    Ok(inv)
}

/// Exact-in swap pricing: the fee is deducted from the input, the input
/// reserve grows by the remainder, and the output follows from the
/// weighted-product rule, rounding against the trader at every step.
pub open spec fn spec_calc_out_given_in(
    bi: nat,
    wi: nat,
    bo: nat,
    wo: nat,
    ai: nat,
    fee: nat,
) -> Result<nat, MathError> {
    match spec_mul_down(ai, (ONE - fee) as nat) {
        Err(er) => Err(er),
        Ok(aaf) => if bi + aaf >= p256() {
            Err(MathError::Overflow)
        } else {
            match spec_div_down(bi, bi + aaf) {
                Err(er) => Err(er),
                Ok(base) => match spec_div_down(wi, wo) {
                    Err(er) => Err(er),
                    Ok(exponent) => match spec_pow_down(base, exponent) {
                        Err(er) => Err(er),
                        Ok(power) => spec_mul_down(bo, (ONE - power) as nat),
                    },
                },
            }
        },
    }
}

/// Prices an exact input amount against a two-token pool: returns the
/// output amount the pool owes, rounded in the pool's favor.
pub fn calc_out_given_in(
    balance_in: U256,
    weight_in: U256,
    balance_out: U256,
    weight_out: U256,
    amount_in: U256,
    swap_fee: U256,
) -> (r: Result<U256, MathError>)
    requires
        swap_fee@ < ONE as nat,
        weight_out@ != 0,
        balance_in@ == 0 ==> (amount_in@ * ((ONE - swap_fee@) as nat)) / (ONE as nat) != 0,
    ensures
        res_val(r) == spec_calc_out_given_in(
            balance_in@,
            weight_in@,
            balance_out@,
            weight_out@,
            amount_in@,
            swap_fee@,
        ),
{
    let amount_in_after_fee = match fixed::mul_down(amount_in, fixed::complement(swap_fee)) {
        Ok(v) => v,
        Err(er) => {
            return Err(er);
        },
    };
    let new_balance_in = match balance_in.checked_add(amount_in_after_fee) {
        Some(v) => v,
        None => {
            return Err(MathError::Overflow);
        },
    };
    let base = match fixed::div_down(balance_in, new_balance_in) {
        Ok(v) => v,
        Err(er) => {
            return Err(er);
        },
    };
    let exponent = match fixed::div_down(weight_in, weight_out) {
        Ok(v) => v,
        Err(er) => {
            return Err(er);
        },
    };
    proof {
        lemma_div_down_le_one(balance_in@, new_balance_in@);
        lemma_pow_down_le_one(base@, exponent@);
    }
    let power = match fixed::pow(base, exponent) {
        Ok(v) => v,
        Err(er) => {
            return Err(er);
        },
    };
    fixed::mul_down(balance_out, fixed::complement(power))
}

/// Exact-out swap pricing: the required input follows from the
/// weighted-product rule applied to the shrunken output reserve, and the
/// fee is added on top, rounding against the trader at every step.
pub open spec fn spec_calc_in_given_out(
    bi: nat,
    wi: nat,
    bo: nat,
    wo: nat,
    ao: nat,
    fee: nat,
) -> Result<nat, MathError> {
    if bo < ao {
        Err(MathError::InsufficientBalance)
    } else {
        match spec_div_down(bo, (bo - ao) as nat) {
            Err(er) => Err(er),
            Ok(base) => match spec_div_down(wo, wi) {
                Err(er) => Err(er),
                Ok(exponent) => match spec_pow_down(base, exponent) {
                    Err(er) => Err(er),
                    Ok(power) => if power < ONE {
                        Err(MathError::InvalidTrade)
                    } else {
                        match spec_mul_down(bi, (power - ONE) as nat) {
                            Err(er) => Err(er),
                            Ok(without_fee) => spec_div_up(without_fee, (ONE - fee) as nat),
                        }
                    },
                },
            },
        }
    }
}

/// Prices an exact output amount against a two-token pool: returns the
/// input amount the pool charges, rounded in the pool's favor.
pub fn calc_in_given_out(
    balance_in: U256,
    weight_in: U256,
    balance_out: U256,
    weight_out: U256,
    amount_out: U256,
    swap_fee: U256,
) -> (r: Result<U256, MathError>)
    requires
        swap_fee@ < ONE as nat,
        weight_in@ != 0,
        amount_out@ != balance_out@,
    ensures
        res_val(r) == spec_calc_in_given_out(
            balance_in@,
            weight_in@,
            balance_out@,
            weight_out@,
            amount_out@,
            swap_fee@,
        ),
{
    let denom = match balance_out.checked_sub(amount_out) {
        Some(v) => v,
        None => {
            return Err(MathError::InsufficientBalance);
        },
    };
    let base = match fixed::div_down(balance_out, denom) {
        Ok(v) => v,
        Err(er) => {
            return Err(er);
        },
    };
    let exponent = match fixed::div_down(weight_out, weight_in) {
        Ok(v) => v,
        Err(er) => {
            return Err(er);
        },
    };
    let power = match fixed::pow(base, exponent) {
        Ok(v) => v,
        Err(er) => {
            return Err(er);
        },
    };
    let ratio = match power.checked_sub(fixed::one()) {
        Some(v) => v,
        None => {
            return Err(MathError::InvalidTrade);
        },
    };
    let without_fee = match fixed::mul_down(balance_in, ratio) {
        Ok(v) => v,
        Err(er) => {
            return Err(er);
        },
    };
    fixed::div_up(without_fee, fixed::complement(swap_fee))
}

/// Forgets the representation of a vector result, keeping its values.
pub open spec fn res_vals(r: Result<Vec<U256>, MathError>) -> Result<Seq<nat>, MathError> {
    match r {
        Ok(v) => Ok(vals(v@)),
        Err(e) => Err(e),
    }
}

/// Single-token join pricing: the supply ratio is raised to `1/weight`
/// to find the grown input reserve, and the fee is charged on the part
/// of the deposit that exceeds the proportional share, everything
/// rounded in the pool's favor.
pub open spec fn spec_calc_token_in_given_exact_bpt_out(
    bi: nat,
    wi: nat,
    bpt_out: nat,
    total: nat,
    fee: nat,
) -> Result<nat, MathError> {
    if total + bpt_out >= p256() {
        Err(MathError::Overflow)
    } else {
        match spec_div_up(total + bpt_out, total) {
            Err(er) => Err(er),
            Ok(ir) => match spec_div_down(ONE as nat, wi) {
                Err(er) => Err(er),
                Ok(exponent) => match spec_pow_up(ir, exponent) {
                    Err(er) => Err(er),
                    Ok(power) => match spec_mul_up(bi, power) {
                        Err(er) => Err(er),
                        Ok(nbi) => {
                            let without_fee = if bi <= nbi {
                                (nbi - bi) as nat
                            } else {
                                0
                            };
                            match spec_mul_up(bi, (ir - ONE) as nat) {
                                Err(er) => Err(er),
                                Ok(non_taxable) => {
                                    let taxable = if non_taxable <= without_fee {
                                        (without_fee - non_taxable) as nat
                                    } else {
                                        0
                                    };
                                    match spec_div_up(taxable, (ONE - fee) as nat) {
                                        Err(er) => Err(er),
                                        Ok(taxed) => if non_taxable + taxed >= p256() {
                                            Err(MathError::Overflow)
                                        } else {
                                            Ok(non_taxable + taxed)
                                        },
                                    }
                                },
                            }
                        },
                    },
                },
            },
        }
    }
}

/// Returns the input amount of one token needed to mint `bpt_out` pool
/// shares, rounded in the pool's favor; uses the exact up-rounded power.
pub fn calc_token_in_given_exact_bpt_out(
    balance_in: U256,
    weight_in: U256,
    bpt_out: U256,
    total_bpt: U256,
    swap_fee: U256,
) -> (r: Result<U256, MathError>)
    requires
        swap_fee@ < ONE as nat,
        weight_in@ != 0,
        total_bpt@ != 0,
    ensures
        res_val(r) == spec_calc_token_in_given_exact_bpt_out(
            balance_in@,
            weight_in@,
            bpt_out@,
            total_bpt@,
            swap_fee@,
        ),
{
    let grown = match total_bpt.checked_add(bpt_out) {
        Some(v) => v,
        None => {
            return Err(MathError::Overflow);
        },
    };
    let invariant_ratio = match fixed::div_up(grown, total_bpt) {
        Ok(v) => v,
        Err(er) => {
            return Err(er);
        },
    };
    let exponent = match fixed::div_down(fixed::one(), weight_in) {
        Ok(v) => v,
        Err(er) => {
            return Err(er);
        },
    };
    let power = match fixed::pow_up(invariant_ratio, exponent) {
        Ok(v) => v,
        Err(er) => {
            return Err(er);
        },
    };
    let new_balance_in = match fixed::mul_up(balance_in, power) {
        Ok(v) => v,
        Err(er) => {
            return Err(er);
        },
    };
    let amount_in_without_fee = new_balance_in.saturating_sub(balance_in);
    proof {
        lemma_div_up_ge_one(total_bpt@ + bpt_out@, total_bpt@);
    }
    let non_taxable = match fixed::mul_up(balance_in, invariant_ratio.minus(fixed::one())) {
        Ok(v) => v,
        Err(er) => {
            return Err(er);
        },
    };
    let taxable = amount_in_without_fee.saturating_sub(non_taxable);
    let taxed = match fixed::div_up(taxable, fixed::complement(swap_fee)) {
        Ok(v) => v,
        Err(er) => {
            return Err(er);
        },
    };
    match non_taxable.checked_add(taxed) {
        Some(v) => Ok(v),
        None => Err(MathError::Overflow),
    }
}

/// The remaining steps of the proportional-exit map from index `i` with
/// the outputs accumulated so far.
pub open spec fn spec_tokens_out_loop(bs: Seq<nat>, ratio: nat, i: int, acc: Seq<nat>) -> Result<
    Seq<nat>,
    MathError,
>
    decreases bs.len() - i,
{
    if i < 0 || i >= bs.len() {
        Ok(acc)
    } else {
        match spec_mul_down(bs[i], ratio) {
            Err(er) => Err(er),
            Ok(v) => spec_tokens_out_loop(bs, ratio, i + 1, acc.push(v)),
        }
    }
}

/// Proportional exit pricing: the burned share of the supply, after the
/// protocol exit fee, is paid out of every balance, rounded down.
pub open spec fn spec_calc_tokens_out_given_exact_bpt_in(
    bs: Seq<nat>,
    bpt_in: nat,
    total: nat,
    exit_fee: nat,
) -> Result<Seq<nat>, MathError> {
    if bs.len() == 0 {
        Err(MathError::LengthMismatch)
    } else {
        match spec_mul_up(bpt_in, (ONE - exit_fee) as nat) {
            Err(er) => Err(er),
            Ok(burn) => match spec_div_down(burn, total) {
                Err(er) => Err(er),
                Ok(ratio) => spec_tokens_out_loop(bs, ratio, 0, Seq::empty()),
            },
        }
    }
}

/// Burns `bpt_in` pool shares (less the protocol exit fee) and returns
/// the proportional amount of every pooled token, rounded down.
pub fn calc_tokens_out_given_exact_bpt_in(
    balances: &[U256],
    bpt_in: U256,
    total_bpt: U256,
    exit_fee: U256,
) -> (r: Result<Vec<U256>, MathError>)
    requires
        exit_fee@ <= ONE as nat,
        total_bpt@ != 0,
    ensures
        res_vals(r) == spec_calc_tokens_out_given_exact_bpt_in(
            vals(balances@),
            bpt_in@,
            total_bpt@,
            exit_fee@,
        ),
{
    if balances.len() == 0 {
        return Err(MathError::LengthMismatch);
    }
    let ghost target = spec_calc_tokens_out_given_exact_bpt_in(
        vals(balances@),
        bpt_in@,
        total_bpt@,
        exit_fee@,
    );
    let bpt_to_burn = match fixed::mul_up(bpt_in, fixed::complement(exit_fee)) {
        Ok(v) => v,
        Err(er) => {
            return Err(er);
        },
    };
    let bpt_ratio = match fixed::div_down(bpt_to_burn, total_bpt) {
        Ok(v) => v,
        Err(er) => {
            return Err(er);
        },
    };
    let mut out: Vec<U256> = Vec::new();
    let mut i: usize = 0;
    proof {
        assert(vals(out@) =~= Seq::<nat>::empty());
    }
    while i < balances.len()
        invariant
            i <= balances@.len(),
            out@.len() == i,
            target == spec_calc_tokens_out_given_exact_bpt_in(
                vals(balances@),
                bpt_in@,
                total_bpt@,
                exit_fee@,
            ),
            spec_tokens_out_loop(vals(balances@), bpt_ratio@, i as int, vals(out@)) == target,
        decreases balances@.len() - i,
    {
        let v = match fixed::mul_down(balances[i], bpt_ratio) {
            Ok(v) => v,
            Err(er) => {
                return Err(er);
            },
        };
        let ghost prev = vals(out@);
        out.push(v);
        proof {
            assert(vals(out@) =~= prev.push(v@));
        }
        i = i + 1;
    }
    Ok(out)
}

/// Single-token exit pricing: the shrunken supply ratio is raised to
/// `1/weight` to find the reduced output reserve, and the fee is charged
/// on the part of the withdrawal that exceeds the proportional share.
pub open spec fn spec_calc_token_out_given_exact_bpt_in(
    bo: nat,
    wo: nat,
    bpt_in: nat,
    total: nat,
    fee: nat,
) -> Result<nat, MathError> {
    match spec_div_down(bpt_in, total) {
        Err(er) => Err(er),
        Ok(burn_ratio) => {
            let ir = (ONE - burn_ratio) as nat;
            match spec_div_down(ONE as nat, wo) {
                Err(er) => Err(er),
                Ok(exponent) => match spec_pow_down(ir, exponent) {
                    Err(er) => Err(er),
                    Ok(power) => match spec_mul_down(bo, power) {
                        Err(er) => Err(er),
                        Ok(nbo) => {
                            let before_fee = if nbo <= bo {
                                (bo - nbo) as nat
                            } else {
                                0
                            };
                            match spec_mul_down(bo, burn_ratio) {
                                Err(er) => Err(er),
                                Ok(non_taxable) => {
                                    let taxable = if non_taxable <= before_fee {
                                        (before_fee - non_taxable) as nat
                                    } else {
                                        0
                                    };
                                    match spec_mul_down(taxable, (ONE - fee) as nat) {
                                        Err(er) => Err(er),
                                        Ok(taxed) => if non_taxable + taxed >= p256() {
                                            Err(MathError::Overflow)
                                        } else {
                                            Ok(non_taxable + taxed)
                                        },
                                    }
                                },
                            }
                        },
                    },
                },
            }
        },
    }
}

/// Burns `bpt_in` pool shares against a single token and returns the
/// output amount owed, rounded in the pool's favor.
pub fn calc_token_out_given_exact_bpt_in(
    balance_out: U256,
    weight_out: U256,
    bpt_in: U256,
    total_bpt: U256,
    swap_fee: U256,
) -> (r: Result<U256, MathError>)
    requires
        swap_fee@ < ONE as nat,
        weight_out@ != 0,
        total_bpt@ != 0,
        bpt_in@ <= total_bpt@,
    ensures
        res_val(r) == spec_calc_token_out_given_exact_bpt_in(
            balance_out@,
            weight_out@,
            bpt_in@,
            total_bpt@,
            swap_fee@,
        ),
{
    let burn_ratio = match fixed::div_down(bpt_in, total_bpt) {
        Ok(v) => v,
        Err(er) => {
            return Err(er);
        },
    };
    proof {
        lemma_div_down_le_one(bpt_in@, total_bpt@);
    }
    let invariant_ratio = fixed::complement(burn_ratio);
    let exponent = match fixed::div_down(fixed::one(), weight_out) {
        Ok(v) => v,
        Err(er) => {
            return Err(er);
        },
    };
    proof {
        lemma_pow_down_le_one(invariant_ratio@, exponent@);
    }
    let power = match fixed::pow_down(invariant_ratio, exponent) {
        Ok(v) => v,
        Err(er) => {
            return Err(er);
        },
    };
    let new_balance_out = match fixed::mul_down(balance_out, power) {
        Ok(v) => v,
        Err(er) => {
            return Err(er);
        },
    };
    let amount_out_before_fee = balance_out.saturating_sub(new_balance_out);
    let non_taxable = match fixed::mul_down(balance_out, burn_ratio) {
        Ok(v) => v,
        Err(er) => {
            return Err(er);
        },
    };
    let taxable = amount_out_before_fee.saturating_sub(non_taxable);
    let taxed = match fixed::mul_down(taxable, fixed::complement(swap_fee)) {
        Ok(v) => v,
        Err(er) => {
            return Err(er);
        },
    };
    match non_taxable.checked_add(taxed) {
        Some(v) => Ok(v),
        None => Err(MathError::Overflow),
    }
}

/// The growth ratio of a balance after a deposit: `(b + a) / b`,
/// rounded down.
pub open spec fn spec_join_ratio(b: nat, a: nat) -> Result<nat, MathError> {
    if b + a >= p256() {
        Err(MathError::Overflow)
    } else {
        spec_div_down((b + a) as nat, b)
    }
}

/// The remaining steps of the first join pass: the weighted mean of the
/// balance ratios, accumulated into `sum`.
pub open spec fn spec_join_mean_loop(
    bs: Seq<nat>,
    ws: Seq<nat>,
    ins: Seq<nat>,
    i: int,
    sum: nat,
) -> Result<nat, MathError>
    decreases bs.len() - i,
{
    if i < 0 || i >= bs.len() {
        Ok(sum)
    } else {
        match spec_join_ratio(bs[i], ins[i]) {
            Err(er) => Err(er),
            Ok(ratio) => match spec_mul_down(ratio, ws[i]) {
                Err(er) => Err(er),
                Ok(term) => if sum + term >= p256() {
                    Err(MathError::Overflow)
                } else {
                    spec_join_mean_loop(bs, ws, ins, i + 1, (sum + term) as nat)
                },
            },
        }
    }
}

/// The deposit amount after the swap fee: a deposit whose ratio exceeds
/// the weighted mean pays the fee on the excess over the proportional
/// share, all other deposits pass through untouched.
pub open spec fn spec_join_fee_adjusted(b: nat, a: nat, ratio: nat, mean: nat, fee: nat) -> Result<
    nat,
    MathError,
> {
    if ratio <= mean {
        Ok(a)
    } else if mean < ONE {
        Err(MathError::InvalidTrade)
    } else {
        match spec_mul_down(b, (mean - ONE) as nat) {
            Err(er) => Err(er),
            Ok(non_taxable) => {
                let taxable = if non_taxable <= a {
                    (a - non_taxable) as nat
                } else {
                    0
                };
                match spec_mul_down(taxable, (ONE - fee) as nat) {
                    Err(er) => Err(er),
                    Ok(taxed) => if non_taxable + taxed >= p256() {
                        Err(MathError::Overflow)
                    } else {
                        Ok(non_taxable + taxed)
                    },
                }
            },
        }
    }
}

/// The remaining steps of the second join pass: the invariant ratio
/// folded over the fee-adjusted deposits.
pub open spec fn spec_join_pass2_loop(
    bs: Seq<nat>,
    ws: Seq<nat>,
    ins: Seq<nat>,
    fee: nat,
    mean: nat,
    i: int,
    invr: nat,
) -> Result<nat, MathError>
    decreases bs.len() - i,
{
    if i < 0 || i >= bs.len() {
        Ok(invr)
    } else {
        match spec_join_ratio(bs[i], ins[i]) {
            Err(er) => Err(er),
            Ok(ratio) => match spec_join_fee_adjusted(bs[i], ins[i], ratio, mean, fee) {
                Err(er) => Err(er),
                Ok(aaf) => match spec_join_ratio(bs[i], aaf) {
                    Err(er) => Err(er),
                    Ok(bratio) => match spec_pow_down(bratio, ws[i]) {
                        Err(er) => Err(er),
                        Ok(pw) => match spec_mul_down(invr, pw) {
                            Err(er) => Err(er),
                            Ok(invr2) => spec_join_pass2_loop(bs, ws, ins, fee, mean, i + 1, invr2),
                        },
                    },
                },
            },
        }
    }
}

/// All-tokens join pricing: the weighted mean of the deposit ratios
/// decides which deposits are taxed, the invariant ratio is folded over
/// the fee-adjusted deposits, and the minted share is the supply times
/// the invariant growth, or zero when nothing grew.
pub open spec fn spec_calc_bpt_out_given_exact_tokens_in(
    bs: Seq<nat>,
    ws: Seq<nat>,
    ins: Seq<nat>,
    total: nat,
    fee: nat,
) -> Result<nat, MathError> {
    if bs.len() == 0 || bs.len() != ws.len() || bs.len() != ins.len() {
        Err(MathError::LengthMismatch)
    } else {
        match spec_join_mean_loop(bs, ws, ins, 0, 0) {
            Err(er) => Err(er),
            Ok(mean) => match spec_join_pass2_loop(bs, ws, ins, fee, mean, 0, ONE as nat) {
                Err(er) => Err(er),
                Ok(invr) => if invr <= ONE {
                    Ok(0)
                } else {
                    spec_mul_down(total, (invr - ONE) as nat)
                },
            },
        }
    }
}

/// Prices an all-tokens deposit: returns the pool shares to mint for
/// `amounts_in`, charging the swap fee on any deposit that exceeds its
/// proportional share.
pub fn calc_bpt_out_given_exact_tokens_in(
    balances: &[U256],
    weights: &[U256],
    amounts_in: &[U256],
    total_bpt: U256,
    swap_fee: U256,
) -> (r: Result<U256, MathError>)
    requires
        swap_fee@ < ONE as nat,
        forall|k: int| 0 <= k < balances@.len() ==> #[trigger] balances@[k]@ != 0,
    ensures
        res_val(r) == spec_calc_bpt_out_given_exact_tokens_in(
            vals(balances@),
            vals(weights@),
            vals(amounts_in@),
            total_bpt@,
            swap_fee@,
        ),
{
    let n = balances.len();
    if n == 0 || n != weights.len() || n != amounts_in.len() {
        return Err(MathError::LengthMismatch);
    }
    let ghost target = spec_calc_bpt_out_given_exact_tokens_in(
        vals(balances@),
        vals(weights@),
        vals(amounts_in@),
        total_bpt@,
        swap_fee@,
    );
    let mut ratios: Vec<U256> = Vec::new();
    let mut sum = U256::zero();
    let mut i: usize = 0;
    while i < n
        invariant
            n == balances@.len(),
            n == weights@.len(),
            n == amounts_in@.len(),
            i <= n,
            ratios@.len() == i,
            forall|k: int| 0 <= k < balances@.len() ==> #[trigger] balances@[k]@ != 0,
            forall|k: int|
                0 <= k < i as int ==> spec_join_ratio(vals(balances@)[k], vals(amounts_in@)[k])
                    == Ok::<nat, MathError>(#[trigger] ratios@[k]@),
            target == spec_calc_bpt_out_given_exact_tokens_in(
                vals(balances@),
                vals(weights@),
                vals(amounts_in@),
                total_bpt@,
                swap_fee@,
            ),
            spec_join_mean_loop(
                vals(balances@),
                vals(weights@),
                vals(amounts_in@),
                i as int,
                sum@,
            ) == spec_join_mean_loop(vals(balances@), vals(weights@), vals(amounts_in@), 0, 0),
        decreases n - i,
    {
        let num = match balances[i].checked_add(amounts_in[i]) {
            Some(v) => v,
            None => {
                return Err(MathError::Overflow);
            },
        };
        let ratio = match fixed::div_down(num, balances[i]) {
            Ok(v) => v,
            Err(er) => {
                return Err(er);
            },
        };
        ratios.push(ratio);
        let term = match fixed::mul_down(ratio, weights[i]) {
            Ok(v) => v,
            Err(er) => {
                return Err(er);
            },
        };
        sum = match sum.checked_add(term) {
            Some(v) => v,
            None => {
                return Err(MathError::Overflow);
            },
        };
        i = i + 1;
    }
    let mut invr = fixed::one();
    let mut j: usize = 0;
    while j < n
        invariant
            n == balances@.len(),
            n == weights@.len(),
            n == amounts_in@.len(),
            j <= n,
            ratios@.len() == n,
            swap_fee@ < ONE as nat,
            forall|k: int| 0 <= k < balances@.len() ==> #[trigger] balances@[k]@ != 0,
            forall|k: int|
                0 <= k < n as int ==> spec_join_ratio(vals(balances@)[k], vals(amounts_in@)[k])
                    == Ok::<nat, MathError>(#[trigger] ratios@[k]@),
            target == spec_calc_bpt_out_given_exact_tokens_in(
                vals(balances@),
                vals(weights@),
                vals(amounts_in@),
                total_bpt@,
                swap_fee@,
            ),
            spec_join_mean_loop(vals(balances@), vals(weights@), vals(amounts_in@), 0, 0)
                == Ok::<nat, MathError>(sum@),
            spec_join_pass2_loop(
                vals(balances@),
                vals(weights@),
                vals(amounts_in@),
                swap_fee@,
                sum@,
                j as int,
                invr@,
            ) == spec_join_pass2_loop(
                vals(balances@),
                vals(weights@),
                vals(amounts_in@),
                swap_fee@,
                sum@,
                0,
                ONE as nat,
            ),
        decreases n - j,
    {
        let mut amount_after = amounts_in[j];
        if sum.lt(&ratios[j]) {
            let diff = match sum.checked_sub(fixed::one()) {
                Some(v) => v,
                None => {
                    return Err(MathError::InvalidTrade);
                },
            };
            let non_taxable = match fixed::mul_down(balances[j], diff) {
                Ok(v) => v,
                Err(er) => {
                    return Err(er);
                },
            };
            let taxable = amounts_in[j].saturating_sub(non_taxable);
            let taxed = match fixed::mul_down(taxable, fixed::complement(swap_fee)) {
                Ok(v) => v,
                Err(er) => {
                    return Err(er);
                },
            };
            amount_after = match non_taxable.checked_add(taxed) {
                Some(v) => v,
                None => {
                    return Err(MathError::Overflow);
                },
            };
        }
        let num = match balances[j].checked_add(amount_after) {
            Some(v) => v,
            None => {
                return Err(MathError::Overflow);
            },
        };
        let bratio = match fixed::div_down(num, balances[j]) {
            Ok(v) => v,
            Err(er) => {
                return Err(er);
            },
        };
        let pw = match fixed::pow(bratio, weights[j]) {
            Ok(v) => v,
            Err(er) => {
                return Err(er);
            },
        };
        invr = match fixed::mul_down(invr, pw) {
            Ok(v) => v,
            Err(er) => {
                return Err(er);
            },
        };
        j = j + 1;
    }
    if invr.le(&fixed::one()) {
        return Ok(U256::zero());
    }
    fixed::mul_down(total_bpt, invr.minus(fixed::one()))
}

/// The shrink ratio of a balance after a withdrawal: `(b - a) / b`,
/// rounded down.
pub open spec fn spec_exit_ratio(b: nat, a: nat) -> Result<nat, MathError> {
    if b < a {
        Err(MathError::InsufficientBalance)
    } else {
        spec_div_down((b - a) as nat, b)
    }
}

/// The remaining steps of the first exit pass: the weighted mean of the
/// balance ratios, accumulated into `sum`.
pub open spec fn spec_exit_mean_loop(
    bs: Seq<nat>,
    ws: Seq<nat>,
    outs: Seq<nat>,
    i: int,
    sum: nat,
) -> Result<nat, MathError>
    decreases bs.len() - i,
{
    if i < 0 || i >= bs.len() {
        Ok(sum)
    } else {
        match spec_exit_ratio(bs[i], outs[i]) {
            Err(er) => Err(er),
            Ok(ratio) => match spec_mul_down(ratio, ws[i]) {
                Err(er) => Err(er),
                Ok(term) => if sum + term >= p256() {
                    Err(MathError::Overflow)
                } else {
                    spec_exit_mean_loop(bs, ws, outs, i + 1, (sum + term) as nat)
                },
            },
        }
    }
}

/// The withdrawal amount after the swap fee: a withdrawal whose ratio
/// falls below the weighted mean pays the fee on the excess over the
/// proportional share, rounded up; all other withdrawals pass through.
pub open spec fn spec_exit_fee_adjusted(b: nat, a: nat, ratio: nat, mean: nat, fee: nat) -> Result<
    nat,
    MathError,
> {
    if ratio >= mean {
        Ok(a)
    } else if mean > ONE {
        Err(MathError::InvalidTrade)
    } else {
        match spec_mul_down(b, (ONE - mean) as nat) {
            Err(er) => Err(er),
            Ok(non_taxable) => {
                let taxable = if non_taxable <= a {
                    (a - non_taxable) as nat
                } else {
                    0
                };
                match spec_div_up(taxable, (ONE - fee) as nat) {
                    Err(er) => Err(er),
                    Ok(taxed) => if non_taxable + taxed >= p256() {
                        Err(MathError::Overflow)
                    } else {
                        Ok(non_taxable + taxed)
                    },
                }
            },
        }
    }
}

/// The remaining steps of the second exit pass: the invariant ratio
/// folded over the fee-adjusted withdrawals.
pub open spec fn spec_exit_pass2_loop(
    bs: Seq<nat>,
    ws: Seq<nat>,
    outs: Seq<nat>,
    fee: nat,
    mean: nat,
    i: int,
    invr: nat,
) -> Result<nat, MathError>
    decreases bs.len() - i,
{
    if i < 0 || i >= bs.len() {
        Ok(invr)
    } else {
        match spec_exit_ratio(bs[i], outs[i]) {
            Err(er) => Err(er),
            Ok(ratio) => match spec_exit_fee_adjusted(bs[i], outs[i], ratio, mean, fee) {
                Err(er) => Err(er),
                Ok(awf) => match spec_exit_ratio(bs[i], awf) {
                    Err(er) => Err(er),
                    Ok(bratio) => match spec_pow_down(bratio, ws[i]) {
                        Err(er) => Err(er),
                        Ok(pw) => match spec_mul_down(invr, pw) {
                            Err(er) => Err(er),
                            Ok(invr2) => spec_exit_pass2_loop(
                                bs,
                                ws,
                                outs,
                                fee,
                                mean,
                                i + 1,
                                invr2,
                            ),
                        },
                    },
                },
            },
        }
    }
}

/// All-tokens-out exit pricing: the mirror of the join formula, taxing
/// withdrawals below the mean ratio and burning the supply times the
/// invariant shrinkage, or zero when nothing shrank.
pub open spec fn spec_calc_bpt_in_given_exact_tokens_out(
    bs: Seq<nat>,
    ws: Seq<nat>,
    outs: Seq<nat>,
    total: nat,
    fee: nat,
) -> Result<nat, MathError> {
    if bs.len() == 0 || bs.len() != ws.len() || bs.len() != outs.len() {
        Err(MathError::LengthMismatch)
    } else {
        match spec_exit_mean_loop(bs, ws, outs, 0, 0) {
            Err(er) => Err(er),
            Ok(mean) => match spec_exit_pass2_loop(bs, ws, outs, fee, mean, 0, ONE as nat) {
                Err(er) => Err(er),
                Ok(invr) => if invr >= ONE {
                    Ok(0)
                } else {
                    spec_mul_up(total, (ONE - invr) as nat)
                },
            },
        }
    }
}

/// Prices an exact-amounts withdrawal: returns the pool shares to burn
/// for `amounts_out`, charging the swap fee on any withdrawal that
/// exceeds its proportional share.
pub fn calc_bpt_in_given_exact_tokens_out(
    balances: &[U256],
    weights: &[U256],
    amounts_out: &[U256],
    total_bpt: U256,
    swap_fee: U256,
) -> (r: Result<U256, MathError>)
    requires
        swap_fee@ < ONE as nat,
        forall|k: int| 0 <= k < balances@.len() ==> #[trigger] balances@[k]@ != 0,
    ensures
        res_val(r) == spec_calc_bpt_in_given_exact_tokens_out(
            vals(balances@),
            vals(weights@),
            vals(amounts_out@),
            total_bpt@,
            swap_fee@,
        ),
{
    let n = balances.len();
    if n == 0 || n != weights.len() || n != amounts_out.len() {
        return Err(MathError::LengthMismatch);
    }
    let ghost target = spec_calc_bpt_in_given_exact_tokens_out(
        vals(balances@),
        vals(weights@),
        vals(amounts_out@),
        total_bpt@,
        swap_fee@,
    );
    let mut ratios: Vec<U256> = Vec::new();
    let mut sum = U256::zero();
    let mut i: usize = 0;
    while i < n
        invariant
            n == balances@.len(),
            n == weights@.len(),
            n == amounts_out@.len(),
            i <= n,
            ratios@.len() == i,
            forall|k: int| 0 <= k < balances@.len() ==> #[trigger] balances@[k]@ != 0,
            forall|k: int|
                0 <= k < i as int ==> spec_exit_ratio(vals(balances@)[k], vals(amounts_out@)[k])
                    == Ok::<nat, MathError>(#[trigger] ratios@[k]@),
            target == spec_calc_bpt_in_given_exact_tokens_out(
                vals(balances@),
                vals(weights@),
                vals(amounts_out@),
                total_bpt@,
                swap_fee@,
            ),
            spec_exit_mean_loop(
                vals(balances@),
                vals(weights@),
                vals(amounts_out@),
                i as int,
                sum@,
            ) == spec_exit_mean_loop(vals(balances@), vals(weights@), vals(amounts_out@), 0, 0),
        decreases n - i,
    {
        let num = match balances[i].checked_sub(amounts_out[i]) {
            Some(v) => v,
            None => {
                return Err(MathError::InsufficientBalance);
            },
        };
        let ratio = match fixed::div_down(num, balances[i]) {
            Ok(v) => v,
            Err(er) => {
                return Err(er);
            },
        };
        ratios.push(ratio);
        let term = match fixed::mul_down(ratio, weights[i]) {
            Ok(v) => v,
            Err(er) => {
                return Err(er);
            },
        };
        sum = match sum.checked_add(term) {
            Some(v) => v,
            None => {
                return Err(MathError::Overflow);
            },
        };
        i = i + 1;
    }
    let mut invr = fixed::one();
    let mut j: usize = 0;
    while j < n
        invariant
            n == balances@.len(),
            n == weights@.len(),
            n == amounts_out@.len(),
            j <= n,
            ratios@.len() == n,
            swap_fee@ < ONE as nat,
            forall|k: int| 0 <= k < balances@.len() ==> #[trigger] balances@[k]@ != 0,
            forall|k: int|
                0 <= k < n as int ==> spec_exit_ratio(vals(balances@)[k], vals(amounts_out@)[k])
                    == Ok::<nat, MathError>(#[trigger] ratios@[k]@),
            target == spec_calc_bpt_in_given_exact_tokens_out(
                vals(balances@),
                vals(weights@),
                vals(amounts_out@),
                total_bpt@,
                swap_fee@,
            ),
            spec_exit_mean_loop(vals(balances@), vals(weights@), vals(amounts_out@), 0, 0)
                == Ok::<nat, MathError>(sum@),
            spec_exit_pass2_loop(
                vals(balances@),
                vals(weights@),
                vals(amounts_out@),
                swap_fee@,
                sum@,
                j as int,
                invr@,
            ) == spec_exit_pass2_loop(
                vals(balances@),
                vals(weights@),
                vals(amounts_out@),
                swap_fee@,
                sum@,
                0,
                ONE as nat,
            ),
        decreases n - j,
    {
        let mut amount_with_fee = amounts_out[j];
        if ratios[j].lt(&sum) {
            let comp = match fixed::one().checked_sub(sum) {
                Some(v) => v,
                None => {
                    return Err(MathError::InvalidTrade);
                },
            };
            let non_taxable = match fixed::mul_down(balances[j], comp) {
                Ok(v) => v,
                Err(er) => {
                    return Err(er);
                },
            };
            let taxable = amounts_out[j].saturating_sub(non_taxable);
            let taxed = match fixed::div_up(taxable, fixed::complement(swap_fee)) {
                Ok(v) => v,
                Err(er) => {
                    return Err(er);
                },
            };
            amount_with_fee = match non_taxable.checked_add(taxed) {
                Some(v) => v,
                None => {
                    return Err(MathError::Overflow);
                },
            };
        }
        let num = match balances[j].checked_sub(amount_with_fee) {
            Some(v) => v,
            None => {
                return Err(MathError::InsufficientBalance);
            },
        };
        let bratio = match fixed::div_down(num, balances[j]) {
            Ok(v) => v,
            Err(er) => {
                return Err(er);
            },
        };
        let pw = match fixed::pow(bratio, weights[j]) {
            Ok(v) => v,
            Err(er) => {
                return Err(er);
            },
        };
        invr = match fixed::mul_down(invr, pw) {
            Ok(v) => v,
            Err(er) => {
                return Err(er);
            },
        };
        j = j + 1;
    }
    if fixed::one().le(&invr) {
        return Ok(U256::zero());
    }
    fixed::mul_up(total_bpt, fixed::complement(invr))
}

} // verus!
