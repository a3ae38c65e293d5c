//! Pool-operation pricing over raw token amounts.
//!
//! The on-chain host stores balances and share supply as plain 64-bit
//! token amounts and weights as 128-bit fixed-point values.  These
//! functions carry out the whole computation of a join, exit or swap:
//! scale the raw amounts to fixed point, price the operation, and scale
//! the results back, with every step checked.  The host around them only
//! moves tokens and persists the returned supply.
use vstd::prelude::*;

verus! {

use vstd::arithmetic::div_mod::lemma_div_multiples_vanish;
use vstd::arithmetic::mul::lemma_mul_inequality;
use crate::MathError;
use crate::fixed::ONE;
use crate::u256::U256;
use crate::u256::p128;
use crate::weighted_math;
use crate::weighted_math::spec_calc_bpt_out_given_exact_tokens_in;
use crate::weighted_math::spec_calc_out_given_in;
use crate::weighted_math::spec_calc_token_out_given_exact_bpt_in;
use crate::weighted_math::vals;

/// A raw 64-bit token amount in fixed point.
pub open spec fn scaled(v: nat) -> nat {
    v * (ONE as nat)
}

/// A sequence of raw amounts in fixed point.
pub open spec fn scaled_seq(s: Seq<u64>) -> Seq<nat> {
    s.map_values(|x: u64| scaled(x as nat))
}

/// The weights as stored by the host, already in fixed point.
pub open spec fn weight_seq(s: Seq<u128>) -> Seq<nat> {
    s.map_values(|x: u128| x as nat)
}

/// Scales a raw token amount to fixed point.
fn scale_up(v: u64) -> (r: U256)
    ensures
        r@ == scaled(v as nat),
{
    proof {
        lemma_mul_inequality(v as int, u64::MAX as int, ONE as int);
        assert(u64::MAX as nat * (ONE as nat) < p128()) by (nonlinear_arith);
    }
    U256::from_u128((v as u128) * ONE)
}

/// Scales a fixed-point value back to a raw token amount, rounding
/// down; fails when the amount does not fit in 64 bits.
fn scale_down(x: U256) -> (r: Result<u64, MathError>)
    ensures
        r == if x@ / (ONE as nat) <= u64::MAX {
            Ok::<u64, MathError>((x@ / (ONE as nat)) as u64)
        } else {
            Err::<u64, MathError>(MathError::Overflow)
        },
{
    let (q, _rem) = x.div_rem(crate::fixed::one());
    let low = q.low_u128();
    proof {
        crate::u256::lemma_u256_bound(q);
    }
    if q.le(&U256::from_u128(u64::MAX as u128)) {
        proof {
            vstd::arithmetic::div_mod::lemma_small_mod(q@, p128());
        }
        Ok(low as u64)
    } else {
        Err(MathError::Overflow)
    }
}

/// Scales a slice of raw amounts to fixed point.
fn scale_up_all(vs: &[u64]) -> (r: Vec<U256>)
    ensures
        vals(r@) == scaled_seq(vs@),
{
    let mut out: Vec<U256> = Vec::new();
    let mut i: usize = 0;
    while i < vs.len()
        invariant
            i <= vs@.len(),
            out@.len() == i,
            forall|k: int| 0 <= k < i as int ==> (#[trigger] out@[k])@ == scaled(vs@[k] as nat),
        decreases vs@.len() - i,
    {
        let v = scale_up(vs[i]);
        out.push(v);
        i = i + 1;
    }
    proof {
        assert(vals(out@) =~= scaled_seq(vs@));
    }
    out
}

/// Embeds the stored weights into the 256-bit domain.
fn widen_weights(ws: &[u128]) -> (r: Vec<U256>)
    ensures
        vals(r@) == weight_seq(ws@),
{
    let mut out: Vec<U256> = Vec::new();
    let mut i: usize = 0;
    while i < ws.len()
        invariant
            i <= ws@.len(),
            out@.len() == i,
            forall|k: int| 0 <= k < i as int ==> (#[trigger] out@[k])@ == ws@[k] as nat,
        decreases ws@.len() - i,
    {
        let v = U256::from_u128(ws[i]);
        out.push(v);
        i = i + 1;
    }
    proof {
        assert(vals(out@) =~= weight_seq(ws@));
    }
    out
}

/// An all-tokens join over raw amounts: the minted shares and the new
/// share supply.  A join that creates no value is rejected rather than
/// minting nothing.
pub open spec fn spec_join_quote(
    bs: Seq<u64>,
    ws: Seq<u128>,
    ins: Seq<u64>,
    total: nat,
    fee: nat,
) -> Result<(nat, nat), MathError> {
    match spec_calc_bpt_out_given_exact_tokens_in(
        scaled_seq(bs),
        weight_seq(ws),
        scaled_seq(ins),
        scaled(total),
        fee,
    ) {
        Err(er) => Err(er),
        Ok(bpt_fp) => if bpt_fp == 0 {
            Err(MathError::InvalidTrade)
        } else if bpt_fp / (ONE as nat) > u64::MAX {
            Err(MathError::Overflow)
        } else if total + bpt_fp / (ONE as nat) > u64::MAX {
            Err(MathError::Overflow)
        } else {
            Ok((bpt_fp / (ONE as nat), total + bpt_fp / (ONE as nat)))
        },
    }
}

/// Prices an all-tokens deposit of raw amounts: returns the shares to
/// mint and the share supply after minting.
pub fn join_exact_tokens_in_for_bpt_out(
    balances: &[u64],
    weights: &[u128],
    amounts_in: &[u64],
    total_bpt: u64,
    swap_fee: u64,
) -> (r: Result<(u64, u64), MathError>)
    requires
        swap_fee < ONE as u64,
        forall|k: int| 0 <= k < balances@.len() ==> #[trigger] balances@[k] != 0,
    ensures
        match (r, spec_join_quote(
            balances@,
            weights@,
            amounts_in@,
            total_bpt as nat,
            swap_fee as nat,
        )) {
            (Ok(v), Ok(s)) => v.0 as nat == s.0 && v.1 as nat == s.1,
            (Err(e1), Err(e2)) => e1 == e2,
            _ => false,
        },
{
    let balances_fp = scale_up_all(balances);
    let weights_fp = widen_weights(weights);
    let amounts_fp = scale_up_all(amounts_in);
    proof {
        assert forall|k: int| 0 <= k < balances_fp@.len() implies (#[trigger] balances_fp@[k])@
            != 0 by {
            assert(vals(balances_fp@)[k] == balances_fp@[k]@);
            assert(scaled_seq(balances@)[k] == scaled(balances@[k] as nat));
        }
    }
    let bpt_fp = match weighted_math::calc_bpt_out_given_exact_tokens_in(
        balances_fp.as_slice(),
        weights_fp.as_slice(),
        amounts_fp.as_slice(),
        scale_up(total_bpt),
        U256::from_u128(swap_fee as u128),
    ) {
        Ok(v) => v,
        Err(er) => {
            return Err(er);
        },
    };
    if bpt_fp.is_zero() {
        return Err(MathError::InvalidTrade);
    }
    let bpt_out = match scale_down(bpt_fp) {
        Ok(v) => v,
        Err(er) => {
            return Err(er);
        },
    };
    if bpt_out > u64::MAX - total_bpt {
        return Err(MathError::Overflow);
    }
    Ok((bpt_out, total_bpt + bpt_out))
}

/// The remaining per-token exit prices from index `i`.
pub open spec fn spec_exit_quote_loop(
    bs: Seq<u64>,
    ws: Seq<u128>,
    bpt_in: nat,
    total: nat,
    fee: nat,
    i: int,
    acc: Seq<nat>,
) -> Result<Seq<nat>, MathError>
    decreases bs.len() - i,
{
    if i < 0 || i >= bs.len() {
        Ok(acc)
    } else {
        match spec_calc_token_out_given_exact_bpt_in(
            scaled(bs[i] as nat),
            ws[i] as nat,
            scaled(bpt_in),
            scaled(total),
            fee,
        ) {
            Err(er) => Err(er),
            Ok(out_fp) => if out_fp / (ONE as nat) > u64::MAX {
                Err(MathError::Overflow)
            } else {
                spec_exit_quote_loop(bs, ws, bpt_in, total, fee, i + 1, acc.push(out_fp / (
                ONE as nat)))
            },
        }
    }
}

/// A single-token-per-balance exit over raw amounts: the per-token
/// payouts and the new share supply.  Burning nothing, or more than the
/// supply, is rejected.
pub open spec fn spec_exit_quote(
    bs: Seq<u64>,
    ws: Seq<u128>,
    bpt_in: nat,
    total: nat,
    fee: nat,
) -> Result<(Seq<nat>, nat), MathError> {
    if bpt_in == 0 || bpt_in > total {
        Err(MathError::InvalidTrade)
    } else {
        match spec_exit_quote_loop(bs, ws, bpt_in, total, fee, 0, Seq::empty()) {
            Err(er) => Err(er),
            Ok(outs) => Ok((outs, (total - bpt_in) as nat)),
        }
    }
}

/// Prices an exit that burns `bpt_in` shares against every pooled token
/// in turn: returns the raw payout per token and the share supply after
/// burning.
pub fn exit_exact_bpt_in_for_tokens_out(
    balances: &[u64],
    weights: &[u128],
    bpt_in: u64,
    total_bpt: u64,
    swap_fee: u64,
) -> (r: Result<(Vec<u64>, u64), MathError>)
    requires
        swap_fee < ONE as u64,
        balances@.len() == weights@.len(),
        forall|k: int| 0 <= k < weights@.len() ==> #[trigger] weights@[k] != 0,
    ensures
        match (r, spec_exit_quote(
            balances@,
            weights@,
            bpt_in as nat,
            total_bpt as nat,
            swap_fee as nat,
        )) {
            (Ok(v), Ok(s)) => vals64(v.0@) == s.0 && v.1 as nat == s.1,
            (Err(e1), Err(e2)) => e1 == e2,
            _ => false,
        },
{
    if bpt_in == 0 || bpt_in > total_bpt {
        return Err(MathError::InvalidTrade);
    }
    let ghost target = spec_exit_quote_loop(
        balances@,
        weights@,
        bpt_in as nat,
        total_bpt as nat,
        swap_fee as nat,
        0,
        Seq::empty(),
    );
    let bpt_in_fp = scale_up(bpt_in);
    let total_fp = scale_up(total_bpt);
    let fee_fp = U256::from_u128(swap_fee as u128);
    let mut outs: Vec<u64> = Vec::new();
    let mut i: usize = 0;
    proof {
        assert(vals64(outs@) =~= Seq::<nat>::empty());
        lemma_mul_inequality(bpt_in as int, total_bpt as int, ONE as int);
    }
    while i < balances.len()
        invariant
            i <= balances@.len(),
            balances@.len() == weights@.len(),
            outs@.len() == i,
            swap_fee < ONE as u64,
            forall|k: int| 0 <= k < weights@.len() ==> #[trigger] weights@[k] != 0,
            0 < bpt_in <= total_bpt,
            bpt_in_fp@ == scaled(bpt_in as nat),
            total_fp@ == scaled(total_bpt as nat),
            fee_fp@ == swap_fee as nat,
            bpt_in_fp@ <= total_fp@,
            target == spec_exit_quote_loop(
                balances@,
                weights@,
                bpt_in as nat,
                total_bpt as nat,
                swap_fee as nat,
                0,
                Seq::empty(),
            ),
            spec_exit_quote_loop(
                balances@,
                weights@,
                bpt_in as nat,
                total_bpt as nat,
                swap_fee as nat,
                i as int,
                vals64(outs@),
            ) == target,
        decreases balances@.len() - i,
    {
        let out_fp = match weighted_math::calc_token_out_given_exact_bpt_in(
            scale_up(balances[i]),
            U256::from_u128(weights[i]),
            bpt_in_fp,
            total_fp,
            fee_fp,
        ) {
            Ok(v) => v,
            Err(er) => {
                return Err(er);
            },
        };
        let out = match scale_down(out_fp) {
            Ok(v) => v,
            Err(er) => {
                return Err(er);
            },
        };
        let ghost prev = vals64(outs@);
        outs.push(out);
        proof {
            assert(vals64(outs@) =~= prev.push(out as nat));
        }
        i = i + 1;
    }
    Ok((outs, total_bpt - bpt_in))
}

/// The numeric values of a sequence of raw amounts.
pub open spec fn vals64(s: Seq<u64>) -> Seq<nat> {
    s.map_values(|x: u64| x as nat)
}

/// A two-token swap over raw amounts: the output owed for an exact
/// input, guarded by the caller's minimum.
pub open spec fn spec_swap_quote(
    balance_in: nat,
    weight_in: nat,
    balance_out: nat,
    weight_out: nat,
    amount_in: nat,
    fee: nat,
    minimum_out: nat,
) -> Result<nat, MathError> {
    match spec_calc_out_given_in(
        scaled(balance_in),
        weight_in,
        scaled(balance_out),
        weight_out,
        scaled(amount_in),
        fee,
    ) {
        Err(er) => Err(er),
        Ok(out_fp) => if out_fp / (ONE as nat) > u64::MAX {
            Err(MathError::Overflow)
        } else if out_fp / (ONE as nat) < minimum_out {
            Err(MathError::InvalidTrade)
        } else {
            Ok(out_fp / (ONE as nat))
        },
    }
}

/// Prices an exact-input swap over raw amounts: returns the raw output
/// amount, rejecting the trade when it falls short of `minimum_out`.
pub fn swap_exact_token_in_for_token_out(
    balance_in: u64,
    weight_in: u128,
    balance_out: u64,
    weight_out: u128,
    amount_in: u64,
    swap_fee: u64,
    minimum_out: u64,
) -> (r: Result<u64, MathError>)
    requires
        swap_fee < ONE as u64,
        weight_out != 0,
        balance_in != 0 || amount_in != 0,
    ensures
        match (r, spec_swap_quote(
            balance_in as nat,
            weight_in as nat,
            balance_out as nat,
            weight_out as nat,
            amount_in as nat,
            swap_fee as nat,
            minimum_out as nat,
        )) {
            (Ok(v), Ok(s)) => v as nat == s,
            (Err(e1), Err(e2)) => e1 == e2,
            _ => false,
        },
{
    let balance_in_fp = scale_up(balance_in);
    let amount_in_fp = scale_up(amount_in);
    proof {
        if balance_in == 0 {
            lemma_swap_fee_keeps_amount(amount_in as nat, swap_fee as nat);
        }
    }
    let out_fp = match weighted_math::calc_out_given_in(
        balance_in_fp,
        U256::from_u128(weight_in),
        scale_up(balance_out),
        U256::from_u128(weight_out),
        amount_in_fp,
        U256::from_u128(swap_fee as u128),
    ) {
        Ok(v) => v,
        Err(er) => {
            return Err(er);
        },
    };
    let out = match scale_down(out_fp) {
        Ok(v) => v,
        Err(er) => {
            return Err(er);
        },
    };
    if out < minimum_out {
        return Err(MathError::InvalidTrade);
    }
    Ok(out)
}

/// A nonzero raw input keeps a nonzero fixed-point value after the fee.
proof fn lemma_swap_fee_keeps_amount(amount_in: nat, fee: nat)
    requires
        amount_in != 0,
        fee < ONE,
    ensures
        (scaled(amount_in) * ((ONE - fee) as nat)) / (ONE as nat) != 0,
{
    let keep = (ONE - fee) as nat;
    assert(scaled(amount_in) * keep == (amount_in * keep) * ONE) by (nonlinear_arith)
        requires
            scaled(amount_in) == amount_in * ONE,
    ;
    lemma_div_multiples_vanish((amount_in * keep) as int, ONE as int);
    assert(amount_in * keep >= 1) by (nonlinear_arith)
        requires
            amount_in >= 1,
            keep >= 1,
    ;
}

} // verus!
