//! The privileged messages of the pool and what each of them does.

use crate::error::{ContractError, ContractErrorView};
use crate::math::Decimal;
use crate::transmuter::{Response, ResponseView, Transmuter, TransmuterView};
use crate::transmuter_pool::{Coin, CoinView};
use vstd::prelude::*;

verus! {

/// A privileged message.
#[derive(Clone, Debug, PartialEq, Eq)]
pub enum SudoMsg {
    /// Sets whether the pool is active.
    SetActive { is_active: bool },
    /// Swaps an exact amount of tokens in for as many tokens out as
    /// possible. The sender names the least amount out that it accepts, and
    /// the swap fails where less would come out.
    SwapExactAmountIn {
        sender: String,
        token_in: Coin,
        token_out_denom: String,
        token_out_min_amount: u128,
        swap_fee: Decimal,
    },
    /// Swaps as few tokens in as possible for an exact amount of tokens
    /// out. The sender names the most that it pays, and the swap fails where
    /// more would have to come in.
    SwapExactAmountOut {
        sender: String,
        token_in_denom: String,
        token_in_max_amount: u128,
        token_out: Coin,
        swap_fee: Decimal,
    },
}

/// A privileged message with its strings as plain sequences.
pub ghost enum SudoMsgView {
    SetActive { is_active: bool },
    SwapExactAmountIn {
        sender: Seq<char>,
        token_in: CoinView,
        token_out_denom: Seq<char>,
        token_out_min_amount: u128,
        swap_fee: u128,
    },
    SwapExactAmountOut {
        sender: Seq<char>,
        token_in_denom: Seq<char>,
        token_in_max_amount: u128,
        token_out: CoinView,
        swap_fee: u128,
    },
}

impl View for SudoMsg {
    type V = SudoMsgView;

    open spec fn view(&self) -> SudoMsgView {
        match *self {
            SudoMsg::SetActive { is_active } => SudoMsgView::SetActive { is_active },
            SudoMsg::SwapExactAmountIn {
                sender,
                token_in,
                token_out_denom,
                token_out_min_amount,
                swap_fee,
            } => SudoMsgView::SwapExactAmountIn {
                sender: sender@,
                token_in: token_in@,
                token_out_denom: token_out_denom@,
                token_out_min_amount,
                swap_fee: swap_fee.atomics,
            },
            SudoMsg::SwapExactAmountOut {
                sender,
                token_in_denom,
                token_in_max_amount,
                token_out,
                swap_fee,
            } => SudoMsgView::SwapExactAmountOut {
                sender: sender@,
                token_in_denom: token_in_denom@,
                token_in_max_amount,
                token_out: token_out@,
                swap_fee: swap_fee.atomics,
            },
        }
    }
}

/// The state and the response after a message was carried out at `now`.
pub open spec fn dispatched(state: TransmuterView, msg: SudoMsgView, now: u64) -> Result<
    (TransmuterView, ResponseView),
    ContractErrorView,
> {
    match msg {
        SudoMsgView::SetActive { is_active } => Ok(
            (
                TransmuterView { active_status: is_active, ..state },
                ResponseView { method: "set_active"@, messages: Seq::empty(), data: None },
            ),
        ),
        SudoMsgView::SwapExactAmountIn {
            sender,
            token_in,
            token_out_denom,
            token_out_min_amount,
            swap_fee,
        } => state.try_swap_exact_amount_in(
            sender,
            token_in,
            token_out_denom,
            token_out_min_amount,
            swap_fee,
            now,
        ),
        SudoMsgView::SwapExactAmountOut {
            sender,
            token_in_denom,
            token_in_max_amount,
            token_out,
            swap_fee,
        } => state.try_swap_exact_amount_out(
            sender,
            token_in_denom,
            token_in_max_amount,
            token_out,
            swap_fee,
            now,
        ),
    }
}

/// The amounts of a swap are never found to differ from parity at a fee of
/// zero: no message fails on that account, whatever the state holds.
pub proof fn lemma_parity_holds(state: TransmuterView, msg: SudoMsgView, now: u64)
    ensures
        !(dispatched(state, msg, now) matches Err(
            ContractErrorView::InvalidTokenOutAmount { .. },
        )),
        !(dispatched(state, msg, now) matches Err(ContractErrorView::InvalidTokenInAmount { .. })),
{
}

impl SudoMsg {
    /// Carries the message out on the transmuter at the time `now`. The
    /// transmuter changes only where the message succeeds.
    pub fn dispatch(self, transmuter: &mut Transmuter, now: u64) -> (r: Result<
        Response,
        ContractError,
    >)
        requires
            old(transmuter).wf(),
        ensures
            final(transmuter).wf(),
            match r {
                Ok(response) => dispatched(old(transmuter)@, self@, now) == Ok::<
                    (TransmuterView, ResponseView),
                    ContractErrorView,
                >((final(transmuter)@, response@)),
                Err(e) => dispatched(old(transmuter)@, self@, now) == Err::<
                    (TransmuterView, ResponseView),
                    ContractErrorView,
                >(e@) && *final(transmuter) == *old(transmuter),
            },
    {
        match self {
            SudoMsg::SetActive { is_active } => Ok(transmuter.set_active(is_active)),
            SudoMsg::SwapExactAmountIn {
                sender,
                token_in,
                token_out_denom,
                token_out_min_amount,
                swap_fee,
            } => transmuter.swap_exact_amount_in(
                sender.as_str(),
                token_in,
                token_out_denom.as_str(),
                token_out_min_amount,
                swap_fee,
                now,
            ),
            SudoMsg::SwapExactAmountOut {
                sender,
                token_in_denom,
                token_in_max_amount,
                token_out,
                swap_fee,
            } => transmuter.swap_exact_amount_out(
                sender.as_str(),
                token_in_denom.as_str(),
                token_in_max_amount,
                token_out,
                swap_fee,
                now,
            ),
        }
    }
}

} // verus!
