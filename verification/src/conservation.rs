//! Value conservation: what supplies, transmutations and swaps do to the
//! balances and to the total of the pool. The assets are pegged one to one,
//! so the total is the value that the pool holds.

use crate::swap::{
    lemma_swap_in_keeps_value, lemma_swap_out_keeps_value, try_calc_in_given_out,
    try_calc_out_given_in, try_exchange,
};
use crate::transmuter::{
    route_of, try_compute_exact_in, try_compute_exact_out, MsgView, Route, TransmuterView,
};
use crate::transmuter_pool::{CoinView, PoolView};
use vstd::prelude::*;

verus! {

/// An operation on the pool that can move value.
pub ghost enum Operation {
    Supply { funds: Seq<CoinView> },
    Transmute { funds: Seq<CoinView> },
    SwapExactAmountIn {
        sender: Seq<char>,
        token_in: CoinView,
        token_out_denom: Seq<char>,
        token_out_min_amount: u128,
        swap_fee: u128,
        now: u64,
    },
    SwapExactAmountOut {
        sender: Seq<char>,
        token_in_denom: Seq<char>,
        token_in_max_amount: u128,
        token_out: CoinView,
        swap_fee: u128,
        now: u64,
    },
}

impl Operation {
    /// The state after the operation, or `None` where it fails.
    pub open spec fn outcome(self, state: TransmuterView) -> Option<TransmuterView> {
        match self {
            Operation::Supply { funds } => match state.pool.try_supply(funds) {
                Ok(pool) => Some(TransmuterView { pool, ..state }),
                Err(_) => None,
            },
            Operation::Transmute { funds } => match state.pool.try_transmute(funds) {
                Ok(done) => Some(TransmuterView { pool: done.0, ..state }),
                Err(_) => None,
            },
            Operation::SwapExactAmountIn {
                sender,
                token_in,
                token_out_denom,
                token_out_min_amount,
                swap_fee,
                now,
            } => match state.try_swap_exact_amount_in(
                sender,
                token_in,
                token_out_denom,
                token_out_min_amount,
                swap_fee,
                now,
            ) {
                Ok(done) => Some(done.0),
                Err(_) => None,
            },
            Operation::SwapExactAmountOut {
                sender,
                token_in_denom,
                token_in_max_amount,
                token_out,
                swap_fee,
                now,
            } => match state.try_swap_exact_amount_out(
                sender,
                token_in_denom,
                token_in_max_amount,
                token_out,
                swap_fee,
                now,
            ) {
                Ok(done) => Some(done.0),
                Err(_) => None,
            },
        }
    }

    /// The state after the operation; a failed operation leaves it as it was.
    pub open spec fn step(self, state: TransmuterView) -> TransmuterView {
        match self.outcome(state) {
            Some(after) => after,
            None => state,
        }
    }

    /// Whether the operation takes no fee.
    pub open spec fn is_free(self) -> bool {
        match self {
            Operation::Supply { .. } => true,
            Operation::Transmute { .. } => true,
            Operation::SwapExactAmountIn { swap_fee, .. } => swap_fee == 0,
            Operation::SwapExactAmountOut { swap_fee, .. } => swap_fee == 0,
        }
    }

    /// What the operation supplies to the pool, less what it withdraws:
    /// the supplied amount, the amount for which shares are minted, and,
    /// taken off, the amount for which shares are burnt. A swap between
    /// pooled assets supplies and withdraws nothing, nor does transmuting,
    /// nor an operation that fails.
    pub open spec fn net_supply(self, state: TransmuterView) -> int {
        if self.outcome(state) is None {
            0
        } else {
            match self {
                Operation::Supply { funds } => funds[0].amount as int,
                Operation::Transmute { .. } => 0,
                Operation::SwapExactAmountIn { token_in, token_out_denom, .. } => match route_of(
                    state.pool.alloyed_denom,
                    token_in.denom,
                    token_out_denom,
                ) {
                    Route::AlloyedIn => -(token_in.amount as int),
                    Route::AlloyedOut => token_in.amount as int,
                    Route::Assets => 0,
                },
                Operation::SwapExactAmountOut { token_in_denom, token_out, .. } => match route_of(
                    state.pool.alloyed_denom,
                    token_in_denom,
                    token_out.denom,
                ) {
                    Route::AlloyedIn => -(token_out.amount as int),
                    Route::AlloyedOut => token_out.amount as int,
                    Route::Assets => 0,
                },
            }
        }
    }
}

/// The state after the operations, the first one first.
pub open spec fn run(state: TransmuterView, operations: Seq<Operation>) -> TransmuterView
    decreases operations.len(),
{
    if operations.len() == 0 {
        state
    } else {
        operations.last().step(run(state, operations.drop_last()))
    }
}

/// What the operations supply to the pool, less what they withdraw.
pub open spec fn net_supplies(state: TransmuterView, operations: Seq<Operation>) -> int
    decreases operations.len(),
{
    if operations.len() == 0 {
        0
    } else {
        net_supplies(state, operations.drop_last()) + operations.last().net_supply(
            run(state, operations.drop_last()),
        )
    }
}

/// Whether none of the operations takes a fee.
pub open spec fn all_free(operations: Seq<Operation>) -> bool {
    forall|i: int| 0 <= i < operations.len() ==> (#[trigger] operations[i]).is_free()
}

/// The change of the pool of a swap keeps the pool's invariant, and moves
/// the total by what came in less what went out.
proof fn lemma_compute_exact_in(
    pool: PoolView,
    token_in: CoinView,
    token_out_denom: Seq<char>,
    fee: u128,
)
    requires
        pool.wf(),
        try_compute_exact_in(pool, token_in, token_out_denom, fee) is Ok,
    ensures
        ({
            let (after, token_out) = try_compute_exact_in(pool, token_in, token_out_denom, fee)->Ok_0;
            let route = route_of(pool.alloyed_denom, token_in.denom, token_out_denom);
            &&& after.wf()
            &&& after.alloyed_denom == pool.alloyed_denom
            &&& route == Route::AlloyedIn ==> after.total() == pool.total() - token_in.amount
            &&& route == Route::AlloyedOut ==> after.total() == pool.total() + token_in.amount
            &&& route == Route::Assets ==> after.total() >= pool.total()
            &&& route == Route::Assets && fee == 0 ==> after.total() == pool.total()
        }),
{
    match route_of(pool.alloyed_denom, token_in.denom, token_out_denom) {
        Route::AlloyedIn => {
            pool.lemma_with_balance(
                token_out_denom,
                (pool.balance_of(token_out_denom) - token_in.amount) as u128,
            );
        },
        Route::AlloyedOut => {
            pool.lemma_with_balance(
                token_in.denom,
                (pool.balance_of(token_in.denom) + token_in.amount) as u128,
            );
        },
        Route::Assets => {
            lemma_swap_in_keeps_value(pool, token_in, token_out_denom, fee);
        },
    }
}

/// The same for a swap of an exact amount out.
proof fn lemma_compute_exact_out(
    pool: PoolView,
    token_in_denom: Seq<char>,
    token_out: CoinView,
    fee: u128,
)
    requires
        pool.wf(),
        try_compute_exact_out(pool, token_in_denom, token_out, fee) is Ok,
    ensures
        ({
            let (after, token_in) = try_compute_exact_out(pool, token_in_denom, token_out, fee)->Ok_0;
            let route = route_of(pool.alloyed_denom, token_in_denom, token_out.denom);
            &&& after.wf()
            &&& after.alloyed_denom == pool.alloyed_denom
            &&& route == Route::AlloyedIn ==> after.total() == pool.total() - token_out.amount
            &&& route == Route::AlloyedOut ==> after.total() == pool.total() + token_out.amount
            &&& route == Route::Assets ==> after.total() >= pool.total()
            &&& route == Route::Assets && fee == 0 ==> after.total() == pool.total()
        }),
{
    match route_of(pool.alloyed_denom, token_in_denom, token_out.denom) {
        Route::AlloyedIn => {
            pool.lemma_with_balance(
                token_out.denom,
                (pool.balance_of(token_out.denom) - token_out.amount) as u128,
            );
        },
        Route::AlloyedOut => {
            pool.lemma_with_balance(
                token_in_denom,
                (pool.balance_of(token_in_denom) + token_out.amount) as u128,
            );
        },
        Route::Assets => {
            lemma_swap_out_keeps_value(pool, token_out, token_in_denom, fee);
        },
    }
}

/// One operation keeps the pool's invariant and leaves the pool with at
/// least the total it had and what the operation supplied, less what it
/// withdrew; with exactly that where it takes no fee.
pub proof fn lemma_step_conserves_value(state: TransmuterView, operation: Operation)
    requires
        state.pool.wf(),
    ensures
        operation.step(state).pool.wf(),
        operation.step(state).pool.total() >= state.pool.total() + operation.net_supply(state),
        operation.is_free() ==> operation.step(state).pool.total() == state.pool.total()
            + operation.net_supply(state),
{
    if operation.outcome(state) is Some {
        match operation {
            Operation::Supply { funds } => {
                state.pool.lemma_with_balance(
                    funds[0].denom,
                    (state.pool.balance_of(funds[0].denom) + funds[0].amount) as u128,
                );
            },
            Operation::Transmute { funds } => {
                let pool = state.pool;
                let counterpart = pool.denoms[1 - pool.index_of(funds[0].denom)];
                let amount = funds[0].amount;
                assert(pool.denoms.contains(counterpart));
                pool.lemma_with_balance(
                    counterpart,
                    (pool.balance_of(counterpart) - amount) as u128,
                );
                let debited = pool.debited(counterpart, amount);
                debited.lemma_with_balance(
                    funds[0].denom,
                    (debited.balance_of(funds[0].denom) + amount) as u128,
                );
            },
            Operation::SwapExactAmountIn { token_in, token_out_denom, swap_fee, .. } => {
                lemma_compute_exact_in(state.pool, token_in, token_out_denom, swap_fee);
            },
            Operation::SwapExactAmountOut { token_in_denom, token_out, swap_fee, .. } => {
                lemma_compute_exact_out(state.pool, token_in_denom, token_out, swap_fee);
            },
        }
    }
}

/// Whatever supplies, transmutations and swaps are made, and whichever of
/// them fail, the pool ends with at least the total it began with and what
/// was supplied, less what was withdrawn: fees stay in the pool. Where no
/// operation takes a fee it ends with exactly that.
pub proof fn lemma_value_conservation(state: TransmuterView, operations: Seq<Operation>)
    requires
        state.pool.wf(),
    ensures
        run(state, operations).pool.wf(),
        run(state, operations).pool.total() >= state.pool.total() + net_supplies(
            state,
            operations,
        ),
        all_free(operations) ==> run(state, operations).pool.total() == state.pool.total()
            + net_supplies(state, operations),
    decreases operations.len(),
{
    if operations.len() > 0 {
        let earlier = operations.drop_last();
        lemma_value_conservation(state, earlier);
        lemma_step_conserves_value(run(state, earlier), operations.last());
        if all_free(operations) {
            assert forall|i: int| 0 <= i < earlier.len() implies (#[trigger] earlier[i]).is_free() by {
                assert(operations[i].is_free());
            }
            assert(operations[operations.len() - 1].is_free());
        }
    }
}

/// Whether `after` is `before` but for `amount` more of `denom_in` and
/// `amount` less of `denom_out`: every other balance, every mark, the
/// denominations and the total are the same.
pub open spec fn moved(
    before: PoolView,
    after: PoolView,
    denom_in: Seq<char>,
    denom_out: Seq<char>,
    amount: u128,
) -> bool {
    &&& after.denoms == before.denoms
    &&& after.alloyed_denom == before.alloyed_denom
    &&& after.balance_of(denom_in) == before.balance_of(denom_in) + amount
    &&& after.balance_of(denom_out) == before.balance_of(denom_out) - amount
    &&& forall|other: Seq<char>|
        before.has(other) && other != denom_in && other != denom_out ==> #[trigger] after.balance_of(
            other,
        ) == before.balance_of(other)
    &&& forall|other: Seq<char>|
        before.has(other) ==> #[trigger] after.is_corrupted(other) == before.is_corrupted(other)
    &&& after.total() == before.total()
}

/// One coin of a pooled asset whose balance can hold it is always taken:
/// that balance grows by the amount, so the total grows by it, and nothing
/// else changes.
pub proof fn lemma_supply_adds_to_one_balance(pool: PoolView, funds: Seq<CoinView>)
    requires
        pool.wf(),
        funds.len() == 1,
        pool.has(funds[0].denom),
        pool.balance_of(funds[0].denom) + funds[0].amount <= u128::MAX,
    ensures
        pool.try_supply(funds) is Ok,
        ({
            let after = pool.try_supply(funds)->Ok_0;
            let denom = funds[0].denom;
            &&& after.wf()
            &&& after.denoms == pool.denoms
            &&& after.balance_of(denom) == pool.balance_of(denom) + funds[0].amount
            &&& forall|other: Seq<char>|
                pool.has(other) && other != denom ==> #[trigger] after.balance_of(other)
                    == pool.balance_of(other)
            &&& forall|other: Seq<char>|
                pool.has(other) ==> #[trigger] after.is_corrupted(other) == pool.is_corrupted(
                    other,
                )
            &&& after.total() == pool.total() + funds[0].amount
        }),
{
    pool.lemma_with_balance(
        funds[0].denom,
        (pool.balance_of(funds[0].denom) + funds[0].amount) as u128,
    );
}

/// An exchange of the same amount between two different pooled assets
/// moves that amount from the one balance to the other and changes nothing
/// else.
pub proof fn lemma_exchange_moves(
    pool: PoolView,
    denom_in: Seq<char>,
    denom_out: Seq<char>,
    amount: u128,
)
    requires
        pool.wf(),
        denom_in != denom_out,
        try_exchange(pool, denom_in, amount, denom_out, amount) is Ok,
    ensures
        moved(
            pool,
            try_exchange(pool, denom_in, amount, denom_out, amount)->Ok_0,
            denom_in,
            denom_out,
            amount,
        ),
        try_exchange(pool, denom_in, amount, denom_out, amount)->Ok_0.wf(),
{
    let credited = pool.credited(denom_in, amount);
    pool.lemma_with_balance(denom_in, (pool.balance_of(denom_in) + amount) as u128);
    assert(credited.has(denom_out));
    assert(credited.balance_of(denom_out) == pool.balance_of(denom_out));
    credited.lemma_with_balance(denom_out, (credited.balance_of(denom_out) - amount) as u128);
    let after = credited.debited(denom_out, amount);
    assert(credited.has(denom_in));
    assert(after.balance_of(denom_in) == credited.balance_of(denom_in));
    assert forall|other: Seq<char>|
        pool.has(other) && other != denom_in && other != denom_out implies #[trigger] after.balance_of(
        other,
    ) == pool.balance_of(other) by {
        assert(credited.has(other));
        assert(credited.balance_of(other) == pool.balance_of(other));
    }
    assert forall|other: Seq<char>| pool.has(other) implies #[trigger] after.is_corrupted(other)
        == pool.is_corrupted(other) by {
        assert(credited.has(other));
        assert(credited.is_corrupted(other) == pool.is_corrupted(other));
    }
}

/// An exchange of an amount of one pooled asset for the same amount of
/// that asset leaves the pool as it was.
pub proof fn lemma_exchange_of_one_denom(pool: PoolView, denom: Seq<char>, amount: u128)
    requires
        pool.wf(),
        try_exchange(pool, denom, amount, denom, amount) is Ok,
    ensures
        try_exchange(pool, denom, amount, denom, amount)->Ok_0 == pool,
{
    let credited = pool.credited(denom, amount);
    pool.lemma_with_balance(denom, (pool.balance_of(denom) + amount) as u128);
    let after = credited.debited(denom, amount);
    assert(after.assets =~= pool.assets);
}

/// A swap of an exact amount in between two different pooled assets at a
/// fee of zero gives that amount of the other asset and moves it from the
/// one balance to the other; nothing else of the pool changes.
pub proof fn lemma_free_swap_in_moves(pool: PoolView, token_in: CoinView, token_out_denom: Seq<char>)
    requires
        pool.wf(),
        token_in.denom != token_out_denom,
        try_calc_out_given_in(pool, token_in, token_out_denom, 0) is Ok,
    ensures
        ({
            let (after, token_out) = try_calc_out_given_in(pool, token_in, token_out_denom, 0)->Ok_0;
            &&& token_out == (CoinView { denom: token_out_denom, amount: token_in.amount })
            &&& moved(pool, after, token_in.denom, token_out_denom, token_in.amount)
        }),
{
    crate::math::lemma_fee_bounds(token_in.amount, 0);
    lemma_exchange_moves(pool, token_in.denom, token_out_denom, token_in.amount);
}

/// The same for a swap of an exact amount out: it costs that amount of the
/// asset that pays.
pub proof fn lemma_free_swap_out_moves(pool: PoolView, token_out: CoinView, token_in_denom: Seq<char>)
    requires
        pool.wf(),
        token_in_denom != token_out.denom,
        try_calc_in_given_out(pool, token_out, token_in_denom, 0) is Ok,
    ensures
        ({
            let (after, token_in) = try_calc_in_given_out(pool, token_out, token_in_denom, 0)->Ok_0;
            &&& token_in == (CoinView { denom: token_in_denom, amount: token_out.amount })
            &&& moved(pool, after, token_in_denom, token_out.denom, token_out.amount)
        }),
{
    crate::math::lemma_fee_bounds(token_out.amount, 0);
    lemma_exchange_moves(pool, token_in_denom, token_out.denom, token_out.amount);
}

/// A swap of an exact amount in that succeeds at a fee of zero, between two
/// different denominations of which neither is the alloyed one, moves the
/// amount from the one balance of the pool to the other, changes nothing
/// else of the pool, and has exactly that amount of the other asset sent to
/// the sender.
pub proof fn lemma_free_swap_between_assets(
    state: TransmuterView,
    sender: Seq<char>,
    token_in: CoinView,
    token_out_denom: Seq<char>,
    token_out_min_amount: u128,
    now: u64,
)
    requires
        state.pool.wf(),
        token_in.denom != state.pool.alloyed_denom,
        token_out_denom != state.pool.alloyed_denom,
        token_in.denom != token_out_denom,
        state.try_swap_exact_amount_in(
            sender,
            token_in,
            token_out_denom,
            token_out_min_amount,
            0,
            now,
        ) is Ok,
    ensures
        ({
            let (after, response) = state.try_swap_exact_amount_in(
                sender,
                token_in,
                token_out_denom,
                token_out_min_amount,
                0,
                now,
            )->Ok_0;
            &&& moved(state.pool, after.pool, token_in.denom, token_out_denom, token_in.amount)
            &&& response.messages == seq![
                MsgView::Send {
                    to_address: sender,
                    amount: CoinView { denom: token_out_denom, amount: token_in.amount },
                },
            ]
            &&& after.asset_groups == state.asset_groups
            &&& after.active_status == state.active_status
        }),
{
    lemma_free_swap_in_moves(state.pool, token_in, token_out_denom);
}

/// The same for a swap of an exact amount out.
pub proof fn lemma_free_swap_out_between_assets(
    state: TransmuterView,
    sender: Seq<char>,
    token_in_denom: Seq<char>,
    token_in_max_amount: u128,
    token_out: CoinView,
    now: u64,
)
    requires
        state.pool.wf(),
        token_in_denom != state.pool.alloyed_denom,
        token_out.denom != state.pool.alloyed_denom,
        token_in_denom != token_out.denom,
        state.try_swap_exact_amount_out(
            sender,
            token_in_denom,
            token_in_max_amount,
            token_out,
            0,
            now,
        ) is Ok,
    ensures
        ({
            let (after, response) = state.try_swap_exact_amount_out(
                sender,
                token_in_denom,
                token_in_max_amount,
                token_out,
                0,
                now,
            )->Ok_0;
            &&& moved(state.pool, after.pool, token_in_denom, token_out.denom, token_out.amount)
            &&& response.messages == seq![MsgView::Send { to_address: sender, amount: token_out }]
            &&& after.asset_groups == state.asset_groups
            &&& after.active_status == state.active_status
        }),
{
    lemma_free_swap_out_moves(state.pool, token_out, token_in_denom);
}

} // verus!
