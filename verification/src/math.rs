//! Fixed-point amounts: decimals of eighteen places held as whole numbers of
//! atomic units, and the products and quotients the pool takes of them.

use vstd::prelude::*;

verus! {

/// The atomic units that make one whole.
pub const DECIMAL_ONE: u128 = 1_000_000_000_000_000_000u128;

/// A non-negative decimal of eighteen places, held as its atomic units.
#[derive(Clone, Copy, Debug, PartialEq, Eq, Structural)]
pub struct Decimal {
    pub atomics: u128,
}

impl Decimal {
    /// The decimal of the given atomic units.
    pub fn raw(atomics: u128) -> (d: Self)
        ensures
            d.atomics == atomics,
    {
        Decimal { atomics }
    }

    /// Zero.
    pub fn zero() -> (d: Self)
        ensures
            d.atomics == 0,
    {
        Decimal { atomics: 0 }
    }

    /// One whole.
    pub fn one() -> (d: Self)
        ensures
            d.atomics == DECIMAL_ONE,
    {
        Decimal { atomics: DECIMAL_ONE }
    }

    /// The atomic units.
    pub fn atomics(&self) -> (a: u128)
        ensures
            a == self.atomics,
    {
        self.atomics
    }
}

/// `amount * numerator / denominator`, rounded down.
pub open spec fn ratio_floor(amount: u128, numerator: u128, denominator: u128) -> int
    recommends
        denominator > 0,
{
    (amount as int * numerator as int) / (denominator as int)
}

/// `amount * atomics / 10^18`, rounded up: the product of an amount and a
/// decimal in whole units, never less than the exact product.
pub open spec fn fraction_ceil(amount: u128, atomics: u128) -> int {
    (amount as int * atomics as int + DECIMAL_ONE as int - 1) / (DECIMAL_ONE as int)
}

/// The quotient of `ratio_floor` where there is one that fits in 128 bits.
pub open spec fn checked_ratio_floor(amount: u128, numerator: u128, denominator: u128) -> Option<
    u128,
> {
    if denominator > 0 && ratio_floor(amount, numerator, denominator) <= u128::MAX {
        Some(ratio_floor(amount, numerator, denominator) as u128)
    } else {
        None
    }
}

/// The product of `fraction_ceil` where it fits in 128 bits.
pub open spec fn checked_fraction_ceil(amount: u128, atomics: u128) -> Option<u128> {
    if fraction_ceil(amount, atomics) <= u128::MAX {
        Some(fraction_ceil(amount, atomics) as u128)
    } else {
        None
    }
}

/// Calls `cosmwasm_std::Uint128::checked_multiply_ratio`, which multiplies in
/// 256 bits and divides rounding down. It fails on a zero denominator and
/// where the quotient does not fit in 128 bits; both are `None` here.
#[verifier::external_body]
fn multiply_ratio(amount: u128, numerator: u128, denominator: u128) -> (r: Option<u128>)
    ensures
        r == checked_ratio_floor(amount, numerator, denominator),
{
    match cosmwasm_std::Uint128::new(amount).checked_multiply_ratio(numerator, denominator) {
        Ok(q) => Some(q.u128()),
        Err(_) => None,
    }
}

/// Calls `cosmwasm_std::Uint128::checked_mul_ceil` with a
/// `cosmwasm_std::Decimal` of the given atomic units, which multiplies in
/// 256 bits, divides by `10^18` and adds one where a remainder is left. It
/// fails where the result does not fit in 128 bits, which is `None` here.
#[verifier::external_body]
fn multiply_ceil(amount: u128, atomics: u128) -> (r: Option<u128>)
    ensures
        r == checked_fraction_ceil(amount, atomics),
{
    match cosmwasm_std::Uint128::new(amount).checked_mul_ceil(cosmwasm_std::Decimal::raw(atomics)) {
        Ok(q) => Some(q.u128()),
        Err(_) => None,
    }
}

/// The share of `part` in `total` as a decimal, rounded down.
pub open spec fn share_of(part: u128, total: u128) -> int
    recommends
        total > 0,
{
    ratio_floor(part, DECIMAL_ONE, total)
}

/// A part of a total is at most one whole of it.
pub proof fn lemma_share_at_most_one(part: u128, total: u128)
    requires
        0 < total,
        part <= total,
    ensures
        0 <= share_of(part, total) <= DECIMAL_ONE,
        part == total ==> share_of(part, total) == DECIMAL_ONE,
        part == 0 ==> share_of(part, total) == 0,
{
    let p = part as int;
    let t = total as int;
    let one = DECIMAL_ONE as int;
    assert(p * one <= t * one) by (nonlinear_arith)
        requires
            p <= t,
            one > 0,
    ;
    assert(0 <= (p * one) / t <= one) by (nonlinear_arith)
        requires
            0 <= p * one <= t * one,
            t > 0,
            one >= 0,
    ;
    if part == total {
        assert((t * one) / t == one) by (nonlinear_arith)
            requires
                t > 0,
        ;
    }
    if part == 0 {
        assert(p * one == 0) by (nonlinear_arith)
            requires
                p == 0,
        ;
    }
}

/// The weight of a balance in a total: its share as a decimal, rounded
/// down. There is none in a total of zero, nor where the share is too large
/// to be held, which no part of the total is.
pub fn weight(balance: u128, total: u128) -> (w: Option<Decimal>)
    ensures
        w == match checked_ratio_floor(balance, DECIMAL_ONE, total) {
            Some(q) => Some(Decimal { atomics: q }),
            None => None,
        },
        0 < total && balance <= total ==> w is Some && w.unwrap().atomics == share_of(
            balance,
            total,
        ) && w.unwrap().atomics <= DECIMAL_ONE,
{
    proof {
        if 0 < total && balance <= total {
            lemma_share_at_most_one(balance, total);
        }
    }
    match multiply_ratio(balance, DECIMAL_ONE, total) {
        Some(q) => Some(Decimal { atomics: q }),
        None => None,
    }
}

/// The fee on an amount rounds up, so that it is never less than the exact
/// fee, and with a fee of at most one whole it is at most the amount.
pub proof fn lemma_fee_bounds(amount: u128, fee: u128)
    requires
        fee <= DECIMAL_ONE,
    ensures
        0 <= fraction_ceil(amount, fee) <= amount,
        fraction_ceil(amount, fee) * DECIMAL_ONE >= amount * fee,
        fee == 0 ==> fraction_ceil(amount, fee) == 0,
        fee == DECIMAL_ONE ==> fraction_ceil(amount, fee) == amount,
{
    let a = amount as int;
    let f = fee as int;
    let one = DECIMAL_ONE as int;
    let x = a * f + one - 1;
    assert(0 <= a * f <= a * one) by (nonlinear_arith)
        requires
            0 <= a,
            0 <= f <= one,
    ;
    assert(x / one <= a) by (nonlinear_arith)
        requires
            x <= a * one + one - 1,
            one > 0,
    ;
    assert(0 <= x / one) by (nonlinear_arith)
        requires
            0 <= x,
            one > 0,
    ;
    assert((x / one) * one >= x - (one - 1)) by (nonlinear_arith)
        requires
            one > 0,
    ;
    if fee == 0 {
        assert(a * f == 0) by (nonlinear_arith)
            requires
                f == 0,
        ;
    }
    if fee == DECIMAL_ONE {
        assert((a * one + one - 1) / one == a) by (nonlinear_arith)
            requires
                one > 0,
        ;
    }
}

/// The fee that a decimal takes of an amount, rounded up. There is none
/// where it is too large to be held, which no fee of at most one whole is.
pub fn fee_on(amount: u128, fee: Decimal) -> (r: Option<u128>)
    ensures
        r == checked_fraction_ceil(amount, fee.atomics),
        fee.atomics <= DECIMAL_ONE ==> r is Some && r.unwrap() <= amount,
{
    proof {
        if fee.atomics <= DECIMAL_ONE {
            lemma_fee_bounds(amount, fee.atomics);
        }
    }
    multiply_ceil(amount, fee.atomics)
}

/// The sum of a list of amounts.
pub open spec fn sum_of(amounts: Seq<u128>) -> int
    decreases amounts.len(),
{
    if amounts.len() == 0 {
        0
    } else {
        sum_of(amounts.drop_last()) + amounts.last()
    }
}

/// No amount of a list is more than the sum, and the sum of a part of the
/// list that starts at its head is at most the sum of the whole.
pub proof fn lemma_sum_bounds(amounts: Seq<u128>, i: int)
    requires
        0 <= i <= amounts.len(),
    ensures
        0 <= sum_of(amounts.take(i)) <= sum_of(amounts),
        i < amounts.len() ==> sum_of(amounts.take(i)) + amounts[i] <= sum_of(amounts),
        i < amounts.len() ==> sum_of(amounts.take(i + 1)) == sum_of(amounts.take(i)) + amounts[i],
    decreases amounts.len(),
{
    if amounts.len() == 0 {
        assert(amounts.take(i) =~= amounts);
    } else if i == amounts.len() {
        assert(amounts.take(i) =~= amounts);
        lemma_sum_bounds(amounts.drop_last(), i - 1);
        assert(amounts.drop_last().take(i - 1) =~= amounts.take(i - 1));
    } else {
        lemma_sum_bounds(amounts.drop_last(), i);
        assert(amounts.drop_last().take(i) =~= amounts.take(i));
        assert(amounts.take(i + 1).drop_last() =~= amounts.take(i));
        if i + 1 < amounts.len() {
            assert(amounts.drop_last().take(i + 1) =~= amounts.take(i + 1));
        } else {
            assert(amounts.take(i + 1) =~= amounts);
        }
    }
}

/// Putting another amount in the place of one changes the sum by their difference.
pub proof fn lemma_sum_update(amounts: Seq<u128>, i: int, amount: u128)
    requires
        0 <= i < amounts.len(),
    ensures
        sum_of(amounts.update(i, amount)) == sum_of(amounts) - amounts[i] + amount,
    decreases amounts.len(),
{
    let after = amounts.update(i, amount);
    if i == amounts.len() - 1 {
        assert(after.drop_last() =~= amounts.drop_last());
    } else {
        lemma_sum_update(amounts.drop_last(), i, amount);
        assert(after.drop_last() =~= amounts.drop_last().update(i, amount));
    }
}

/// Putting an amount into the list adds it to the sum.
pub proof fn lemma_sum_insert(amounts: Seq<u128>, i: int, amount: u128)
    requires
        0 <= i <= amounts.len(),
    ensures
        sum_of(amounts.insert(i, amount)) == sum_of(amounts) + amount,
    decreases amounts.len(),
{
    let after = amounts.insert(i, amount);
    if i == amounts.len() {
        assert(after.drop_last() =~= amounts);
    } else {
        lemma_sum_insert(amounts.drop_last(), i, amount);
        assert(after.drop_last() =~= amounts.drop_last().insert(i, amount));
    }
}

} // verus!
