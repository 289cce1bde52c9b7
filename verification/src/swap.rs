//! Swap calculation: what a swap between two pooled assets gives or costs,
//! and the pool that results. The assets are pegged one to one, so before
//! the fee the amount out is the amount in. The fee is rounded up and stays
//! in the pool, in the denomination that came in.

use crate::error::{ContractError, ContractErrorView};
use crate::math::{fee_on, fraction_ceil, lemma_fee_bounds, Decimal, DECIMAL_ONE};
use crate::transmuter_pool::{Coin, CoinView, PoolView, TransmuterPool};
use vstd::prelude::*;

verus! {

/// What comes out for `amount_in` at the fee `fee`: the amount less the fee
/// on it.
pub open spec fn out_given_in(amount_in: u128, fee: u128) -> int {
    amount_in - fraction_ceil(amount_in, fee)
}

/// What has to come in for `amount_out` at the fee `fee`: the amount and the
/// fee on it.
pub open spec fn in_given_out(amount_out: u128, fee: u128) -> int {
    amount_out + fraction_ceil(amount_out, fee)
}

/// The pool after `amount_in` of `denom_in` came in and `amount_out` of
/// `denom_out` went out, in that order.
pub open spec fn try_exchange(
    pool: PoolView,
    denom_in: Seq<char>,
    amount_in: u128,
    denom_out: Seq<char>,
    amount_out: u128,
) -> Result<PoolView, ContractErrorView> {
    match pool.try_credit(denom_in, amount_in) {
        Err(e) => Err(e),
        Ok(credited) => credited.try_debit(denom_out, amount_out),
    }
}

/// The pool and the coin that goes out when `token_in` is swapped for
/// `token_out_denom` at the fee `fee`.
pub open spec fn try_calc_out_given_in(
    pool: PoolView,
    token_in: CoinView,
    token_out_denom: Seq<char>,
    fee: u128,
) -> Result<(PoolView, CoinView), ContractErrorView> {
    if fee > DECIMAL_ONE {
        Err(ContractErrorView::InvalidSwapFee { fee })
    } else {
        let amount_out = out_given_in(token_in.amount, fee) as u128;
        match try_exchange(pool, token_in.denom, token_in.amount, token_out_denom, amount_out) {
            Err(e) => Err(e),
            Ok(after) => Ok((after, CoinView { denom: token_out_denom, amount: amount_out })),
        }
    }
}

/// The pool and the coin that has to come in when `token_out` is bought
/// with `token_in_denom` at the fee `fee`.
pub open spec fn try_calc_in_given_out(
    pool: PoolView,
    token_out: CoinView,
    token_in_denom: Seq<char>,
    fee: u128,
) -> Result<(PoolView, CoinView), ContractErrorView> {
    if fee > DECIMAL_ONE {
        Err(ContractErrorView::InvalidSwapFee { fee })
    } else if in_given_out(token_out.amount, fee) > u128::MAX {
        Err(ContractErrorView::AmountOverflow)
    } else {
        let amount_in = in_given_out(token_out.amount, fee) as u128;
        match try_exchange(pool, token_in_denom, amount_in, token_out.denom, token_out.amount) {
            Err(e) => Err(e),
            Ok(after) => Ok((after, CoinView { denom: token_in_denom, amount: amount_in })),
        }
    }
}

/// An exchange moves the total by what came in less what went out, and
/// keeps the pool's invariant.
pub proof fn lemma_exchange_total(
    pool: PoolView,
    denom_in: Seq<char>,
    amount_in: u128,
    denom_out: Seq<char>,
    amount_out: u128,
)
    requires
        pool.wf(),
        try_exchange(pool, denom_in, amount_in, denom_out, amount_out) is Ok,
    ensures
        ({
            let after = try_exchange(pool, denom_in, amount_in, denom_out, amount_out)->Ok_0;
            &&& after.wf()
            &&& after.total() == pool.total() + amount_in - amount_out
            &&& after.denoms == pool.denoms
            &&& after.alloyed_denom == pool.alloyed_denom
        }),
{
    let credited = pool.try_credit(denom_in, amount_in)->Ok_0;
    pool.lemma_with_balance(denom_in, (pool.balance_of(denom_in) + amount_in) as u128);
    credited.lemma_with_balance(denom_out, (credited.balance_of(denom_out) - amount_out) as u128);
}

/// The fee never vanishes: a swap of an exact amount in gives at most that
/// amount and leaves the pool with at least the total it had, and with
/// exactly that total at a fee of zero, where it gives the whole amount.
pub proof fn lemma_swap_in_keeps_value(
    pool: PoolView,
    token_in: CoinView,
    token_out_denom: Seq<char>,
    fee: u128,
)
    requires
        pool.wf(),
        try_calc_out_given_in(pool, token_in, token_out_denom, fee) is Ok,
    ensures
        ({
            let (after, token_out) = try_calc_out_given_in(
                pool,
                token_in,
                token_out_denom,
                fee,
            )->Ok_0;
            &&& after.wf()
            &&& token_out.amount <= token_in.amount
            &&& after.total() == pool.total() + token_in.amount - token_out.amount
            &&& after.total() >= pool.total()
            &&& fee == 0 ==> token_out.amount == token_in.amount && after.total() == pool.total()
        }),
{
    lemma_fee_bounds(token_in.amount, fee);
    let amount_out = out_given_in(token_in.amount, fee) as u128;
    lemma_exchange_total(pool, token_in.denom, token_in.amount, token_out_denom, amount_out);
}

/// The same for a swap of an exact amount out: it costs at least that
/// amount, and exactly that amount at a fee of zero.
pub proof fn lemma_swap_out_keeps_value(
    pool: PoolView,
    token_out: CoinView,
    token_in_denom: Seq<char>,
    fee: u128,
)
    requires
        pool.wf(),
        try_calc_in_given_out(pool, token_out, token_in_denom, fee) is Ok,
    ensures
        ({
            let (after, token_in) = try_calc_in_given_out(
                pool,
                token_out,
                token_in_denom,
                fee,
            )->Ok_0;
            &&& after.wf()
            &&& token_in.amount >= token_out.amount
            &&& after.total() == pool.total() + token_in.amount - token_out.amount
            &&& after.total() >= pool.total()
            &&& fee == 0 ==> token_in.amount == token_out.amount && after.total() == pool.total()
        }),
{
    lemma_fee_bounds(token_out.amount, fee);
    let amount_in = in_given_out(token_out.amount, fee) as u128;
    lemma_exchange_total(pool, token_in_denom, amount_in, token_out.denom, token_out.amount);
}

/// Takes `amount_in` of `denom_in` into a copy of the pool and lets
/// `amount_out` of `denom_out` out of it.
fn exchange(
    pool: &TransmuterPool,
    denom_in: &str,
    amount_in: u128,
    denom_out: &str,
    amount_out: u128,
) -> (r: Result<TransmuterPool, ContractError>)
    requires
        pool.wf(),
    ensures
        match r {
            Ok(after) => after.wf() && try_exchange(
                pool@,
                denom_in@,
                amount_in,
                denom_out@,
                amount_out,
            ) == Ok::<PoolView, ContractErrorView>(after@),
            Err(e) => try_exchange(pool@, denom_in@, amount_in, denom_out@, amount_out) == Err::<
                PoolView,
                ContractErrorView,
            >(e@),
        },
{
    let mut after = pool.snapshot();
    match after.credit(denom_in, amount_in) {
        Err(e) => Err(e),
        Ok(_) => match after.debit(denom_out, amount_out) {
            Err(e) => Err(e),
            Ok(_) => Ok(after),
        },
    }
}

/// Computes what `token_in` gives in `token_out_denom` at the fee
/// `swap_fee`, and the pool after the swap. The pool given is not changed.
pub fn calc_out_given_in(
    pool: &TransmuterPool,
    token_in: &Coin,
    token_out_denom: &str,
    swap_fee: Decimal,
) -> (r: Result<(TransmuterPool, Coin), ContractError>)
    requires
        pool.wf(),
    ensures
        match r {
            Ok((after, token_out)) => after.wf() && try_calc_out_given_in(
                pool@,
                token_in@,
                token_out_denom@,
                swap_fee.atomics,
            ) == Ok::<(PoolView, CoinView), ContractErrorView>((after@, token_out@)),
            Err(e) => try_calc_out_given_in(pool@, token_in@, token_out_denom@, swap_fee.atomics)
                == Err::<(PoolView, CoinView), ContractErrorView>(e@),
        },
{
    if swap_fee.atomics > DECIMAL_ONE {
        return Err(ContractError::InvalidSwapFee { fee: swap_fee.atomics });
    }
    let fee = match fee_on(token_in.amount, swap_fee) {
        Some(fee) => fee,
        None => token_in.amount,
    };
    let amount_out = token_in.amount - fee;
    match exchange(pool, token_in.denom.as_str(), token_in.amount, token_out_denom, amount_out) {
        Err(e) => Err(e),
        Ok(after) => Ok((after, Coin { denom: token_out_denom.to_owned(), amount: amount_out })),
    }
}

/// Computes what `token_out` costs in `token_in_denom` at the fee
/// `swap_fee`, and the pool after the swap. The pool given is not changed.
pub fn calc_in_given_out(
    pool: &TransmuterPool,
    token_out: &Coin,
    token_in_denom: &str,
    swap_fee: Decimal,
) -> (r: Result<(TransmuterPool, Coin), ContractError>)
    requires
        pool.wf(),
    ensures
        match r {
            Ok((after, token_in)) => after.wf() && try_calc_in_given_out(
                pool@,
                token_out@,
                token_in_denom@,
                swap_fee.atomics,
            ) == Ok::<(PoolView, CoinView), ContractErrorView>((after@, token_in@)),
            Err(e) => try_calc_in_given_out(pool@, token_out@, token_in_denom@, swap_fee.atomics)
                == Err::<(PoolView, CoinView), ContractErrorView>(e@),
        },
{
    if swap_fee.atomics > DECIMAL_ONE {
        return Err(ContractError::InvalidSwapFee { fee: swap_fee.atomics });
    }
    let fee = match fee_on(token_out.amount, swap_fee) {
        Some(fee) => fee,
        None => token_out.amount,
    };
    if fee > u128::MAX - token_out.amount {
        return Err(ContractError::AmountOverflow);
    }
    let amount_in = token_out.amount + fee;
    match exchange(pool, token_in_denom, amount_in, token_out.denom.as_str(), token_out.amount) {
        Err(e) => Err(e),
        Ok(after) => Ok((after, Coin { denom: token_in_denom.to_owned(), amount: amount_in })),
    }
}

} // verus!
