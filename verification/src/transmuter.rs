//! The pool with its registry and its limiters, and the swaps that pass
//! through all three. Nothing here sends, mints or burns: a swap returns the
//! instructions for that, and changes the state only where it succeeds.

use crate::asset_group::{AssetGroups, Registry};
use crate::error::{ContractError, ContractErrorView};
use crate::label::{rank, Rank};
use crate::limiter::{checked, limit_error, Limiters, Windows};
use crate::math::Decimal;
use crate::scope::{limiter_batch_of, try_limiter_batch};
use crate::swap::{
    calc_in_given_out, calc_out_given_in, lemma_swap_in_keeps_value, lemma_swap_out_keeps_value,
    try_calc_in_given_out, try_calc_out_given_in,
};
use crate::table::labels_of;
use crate::transmuter_pool::{
    clashes_at, coins_of, Coin, CoinView, PooledAsset, PoolView, TransmuterPool,
};
use vstd::prelude::*;
use vstd::string::StringExecFns;

verus! {

/// An instruction that a swap leaves to whoever runs the pool.
#[derive(Clone, Debug, PartialEq, Eq)]
pub enum Msg {
    /// Send the coin from the pool to the address.
    Send { to_address: String, amount: Coin },
    /// Mint the coin, of the alloyed denomination, to the address.
    Mint { mint_to_address: String, amount: Coin },
    /// Burn the coin, of the alloyed denomination, that the pool received.
    Burn { amount: Coin },
}

/// An instruction with its strings as plain sequences.
pub ghost enum MsgView {
    Send { to_address: Seq<char>, amount: CoinView },
    Mint { mint_to_address: Seq<char>, amount: CoinView },
    Burn { amount: CoinView },
}

impl View for Msg {
    type V = MsgView;

    open spec fn view(&self) -> MsgView {
        match *self {
            Msg::Send { to_address, amount } => MsgView::Send {
                to_address: to_address@,
                amount: amount@,
            },
            Msg::Mint { mint_to_address, amount } => MsgView::Mint {
                mint_to_address: mint_to_address@,
                amount: amount@,
            },
            Msg::Burn { amount } => MsgView::Burn { amount: amount@ },
        }
    }
}

/// What a swap of an exact amount in gave.
#[derive(Clone, Copy, Debug, PartialEq, Eq, Structural)]
pub struct SwapExactAmountInResponseData {
    pub token_out_amount: u128,
}

/// What a swap of an exact amount out cost.
#[derive(Clone, Copy, Debug, PartialEq, Eq, Structural)]
pub struct SwapExactAmountOutResponseData {
    pub token_in_amount: u128,
}

/// The data of a response.
#[derive(Clone, Copy, Debug, PartialEq, Eq, Structural)]
pub enum ResponseData {
    SwapExactAmountIn(SwapExactAmountInResponseData),
    SwapExactAmountOut(SwapExactAmountOutResponseData),
}

/// What an operation answers: its name, the instructions it leaves, in the
/// order in which they are to be carried out, and its data.
#[derive(Clone, Debug, PartialEq, Eq)]
pub struct Response {
    pub method: String,
    pub messages: Vec<Msg>,
    pub data: Option<ResponseData>,
}

/// A response with its strings as plain sequences.
pub ghost struct ResponseView {
    pub method: Seq<char>,
    pub messages: Seq<MsgView>,
    pub data: Option<ResponseData>,
}

impl View for Response {
    type V = ResponseView;

    open spec fn view(&self) -> ResponseView {
        ResponseView {
            method: self.method@,
            messages: self.messages@.map_values(|m: Msg| m@),
            data: self.data,
        }
    }
}

/// The way a swap takes through the pool.
#[derive(Clone, Copy, Debug, PartialEq, Eq, Structural)]
pub enum Route {
    /// Alloyed shares come in and are burnt, a pooled asset goes out.
    AlloyedIn,
    /// A pooled asset comes in, alloyed shares are minted for it.
    AlloyedOut,
    /// A pooled asset comes in, another goes out.
    Assets,
}

/// The route of a swap from `denom_in` to `denom_out`. Shares that come in
/// decide first.
pub open spec fn route_of(alloyed_denom: Seq<char>, denom_in: Seq<char>, denom_out: Seq<char>) -> Route {
    if denom_in == alloyed_denom {
        Route::AlloyedIn
    } else if denom_out == alloyed_denom {
        Route::AlloyedOut
    } else {
        Route::Assets
    }
}

/// The instructions of a swap on a route.
pub open spec fn messages_of(
    route: Route,
    sender: Seq<char>,
    token_in: CoinView,
    token_out: CoinView,
) -> Seq<MsgView> {
    match route {
        Route::AlloyedIn => seq![
            MsgView::Burn { amount: token_in },
            MsgView::Send { to_address: sender, amount: token_out },
        ],
        Route::AlloyedOut => seq![MsgView::Mint { mint_to_address: sender, amount: token_out }],
        Route::Assets => seq![MsgView::Send { to_address: sender, amount: token_out }],
    }
}

/// The pool after a swap of an exact amount in, and the coin that goes
/// out. Shares are redeemed and issued one for one, without a fee; a swap
/// between pooled assets goes by the swap calculation.
pub open spec fn try_compute_exact_in(
    pool: PoolView,
    token_in: CoinView,
    token_out_denom: Seq<char>,
    fee: u128,
) -> Result<(PoolView, CoinView), ContractErrorView> {
    let parity = CoinView { denom: token_out_denom, amount: token_in.amount };
    match route_of(pool.alloyed_denom, token_in.denom, token_out_denom) {
        Route::AlloyedIn => match pool.try_debit(token_out_denom, token_in.amount) {
            Ok(after) => Ok((after, parity)),
            Err(e) => Err(e),
        },
        Route::AlloyedOut => match pool.try_credit(token_in.denom, token_in.amount) {
            Ok(after) => Ok((after, parity)),
            Err(e) => Err(e),
        },
        Route::Assets => try_calc_out_given_in(pool, token_in, token_out_denom, fee),
    }
}

/// The pool after a swap of an exact amount out, and the coin that has to
/// come in.
pub open spec fn try_compute_exact_out(
    pool: PoolView,
    token_in_denom: Seq<char>,
    token_out: CoinView,
    fee: u128,
) -> Result<(PoolView, CoinView), ContractErrorView> {
    let parity = CoinView { denom: token_in_denom, amount: token_out.amount };
    match route_of(pool.alloyed_denom, token_in_denom, token_out.denom) {
        Route::AlloyedIn => match pool.try_debit(token_out.denom, token_out.amount) {
            Ok(after) => Ok((after, parity)),
            Err(e) => Err(e),
        },
        Route::AlloyedOut => match pool.try_credit(token_in_denom, token_out.amount) {
            Ok(after) => Ok((after, parity)),
            Err(e) => Err(e),
        },
        Route::Assets => try_calc_in_given_out(pool, token_out, token_in_denom, fee),
    }
}

/// The windows after the change of the pool from `before` to `after` went
/// through the limiter at `now`. An empty pool has no weights, so nothing
/// is checked or recorded for it. A pool whose total is more than can be
/// held has no weights either, and the change fails.
pub open spec fn try_limit(
    windows: Windows,
    before: PoolView,
    after: PoolView,
    groups: Registry,
    labels: Seq<Seq<char>>,
    now: u64,
) -> Result<Windows, ContractErrorView> {
    match try_limiter_batch(before, after, groups, labels) {
        Err(e) => Err(e),
        Ok(None) => Ok(windows),
        Ok(Some(batch)) => match checked(windows, batch, now) {
            Some(seen) => Ok(seen),
            None => Err(limit_error(windows, batch, now)),
        },
    }
}

/// A change that leaves the pool empty passes the limiter whatever the
/// windows hold, and nothing is recorded of it.
pub proof fn lemma_empty_pool_not_limited(
    windows: Windows,
    before: PoolView,
    after: PoolView,
    groups: Registry,
    labels: Seq<Seq<char>>,
    now: u64,
)
    requires
        after.total() == 0,
    ensures
        try_limit(windows, before, after, groups, labels, now) == Ok::<Windows, ContractErrorView>(
            windows,
        ),
{
}

/// The pool with its registry and its limiters.
#[derive(Clone, Debug, PartialEq, Eq)]
pub struct Transmuter {
    pub pool: TransmuterPool,
    pub asset_groups: AssetGroups,
    pub limiters: Limiters,
    pub active_status: bool,
}

/// What a transmuter holds.
pub ghost struct TransmuterView {
    pub pool: PoolView,
    pub asset_groups: Registry,
    pub labels: Seq<Seq<char>>,
    pub limiters: Windows,
    pub active_status: bool,
}

impl View for Transmuter {
    type V = TransmuterView;

    open spec fn view(&self) -> TransmuterView {
        TransmuterView {
            pool: self.pool@,
            asset_groups: self.asset_groups@,
            labels: self.asset_groups.labels(),
            limiters: self.limiters@,
            active_status: self.active_status,
        }
    }
}

impl TransmuterView {
    /// The state and the response after a swap of the exact amount
    /// `token_in` for `token_out_denom`, of which at least
    /// `token_out_min_amount` must come out.
    pub open spec fn try_swap_exact_amount_in(
        self,
        sender: Seq<char>,
        token_in: CoinView,
        token_out_denom: Seq<char>,
        token_out_min_amount: u128,
        fee: u128,
        now: u64,
    ) -> Result<(TransmuterView, ResponseView), ContractErrorView> {
        match try_compute_exact_in(self.pool, token_in, token_out_denom, fee) {
            Err(e) => Err(e),
            Ok((after, token_out)) => if token_out.amount < token_out_min_amount {
                Err(
                    ContractErrorView::InsufficientTokenOut {
                        required: token_out_min_amount,
                        available: token_out.amount,
                    },
                )
            } else {
                match try_limit(
                    self.limiters,
                    self.pool,
                    after,
                    self.asset_groups,
                    self.labels,
                    now,
                ) {
                    Err(e) => Err(e),
                    Ok(seen) => Ok(
                        (
                            TransmuterView { pool: after, limiters: seen, ..self },
                            ResponseView {
                                method: "swap_exact_amount_in"@,
                                messages: messages_of(
                                    route_of(self.pool.alloyed_denom, token_in.denom, token_out_denom),
                                    sender,
                                    token_in,
                                    token_out,
                                ),
                                data: Some(
                                    ResponseData::SwapExactAmountIn(
                                        SwapExactAmountInResponseData {
                                            token_out_amount: token_out.amount,
                                        },
                                    ),
                                ),
                            },
                        ),
                    ),
                }
            },
        }
    }

    /// The state and the response after a swap for the exact amount
    /// `token_out`, paid in `token_in_denom`, of which at most
    /// `token_in_max_amount` may be asked.
    pub open spec fn try_swap_exact_amount_out(
        self,
        sender: Seq<char>,
        token_in_denom: Seq<char>,
        token_in_max_amount: u128,
        token_out: CoinView,
        fee: u128,
        now: u64,
    ) -> Result<(TransmuterView, ResponseView), ContractErrorView> {
        match try_compute_exact_out(self.pool, token_in_denom, token_out, fee) {
            Err(e) => Err(e),
            Ok((after, token_in)) => if token_in.amount > token_in_max_amount {
                Err(
                    ContractErrorView::ExcessiveRequiredTokenIn {
                        limit: token_in_max_amount,
                        required: token_in.amount,
                    },
                )
            } else {
                match try_limit(
                    self.limiters,
                    self.pool,
                    after,
                    self.asset_groups,
                    self.labels,
                    now,
                ) {
                    Err(e) => Err(e),
                    Ok(seen) => Ok(
                        (
                            TransmuterView { pool: after, limiters: seen, ..self },
                            ResponseView {
                                method: "swap_exact_amount_out"@,
                                messages: messages_of(
                                    route_of(self.pool.alloyed_denom, token_in_denom, token_out.denom),
                                    sender,
                                    token_in,
                                    token_out,
                                ),
                                data: Some(
                                    ResponseData::SwapExactAmountOut(
                                        SwapExactAmountOutResponseData {
                                            token_in_amount: token_in.amount,
                                        },
                                    ),
                                ),
                            },
                        ),
                    ),
                }
            },
        }
    }
}

/// The instructions of a swap on a route.
fn messages(route: Route, sender: &str, token_in: Coin, token_out: Coin) -> (r: Vec<Msg>)
    ensures
        r@.map_values(|m: Msg| m@) == messages_of(route, sender@, token_in@, token_out@),
{
    let mut list: Vec<Msg> = Vec::new();
    match route {
        Route::AlloyedIn => {
            list.push(Msg::Burn { amount: token_in });
            list.push(Msg::Send { to_address: sender.to_owned(), amount: token_out });
        },
        Route::AlloyedOut => {
            list.push(Msg::Mint { mint_to_address: sender.to_owned(), amount: token_out });
        },
        Route::Assets => {
            list.push(Msg::Send { to_address: sender.to_owned(), amount: token_out });
        },
    }
    proof {
        assert(list@.map_values(|m: Msg| m@) =~= messages_of(
            route,
            sender@,
            token_in@,
            token_out@,
        ));
    }
    list
}

impl Transmuter {
    /// The invariants of the pool, the registry and the limiters.
    pub open spec fn wf(&self) -> bool {
        &&& self.pool.wf()
        &&& self.asset_groups.wf()
        &&& self.limiters.wf()
    }

    /// An active transmuter of the pool, with no group and no limiter.
    pub fn new(pool: TransmuterPool) -> (t: Self)
        requires
            pool.wf(),
        ensures
            t.wf(),
            t@.pool == pool@,
            t@.asset_groups == Map::<Seq<char>, crate::asset_group::AssetGroupView>::empty(),
            t@.labels == Seq::<Seq<char>>::empty(),
            t@.limiters == Map::<Seq<char>, crate::limiter::LimiterView>::empty(),
            t@.active_status,
    {
        Transmuter {
            pool,
            asset_groups: AssetGroups::new(),
            limiters: Limiters::new(),
            active_status: true,
        }
    }

    /// The route of a swap from `denom_in` to `denom_out`.
    pub fn route(&self, denom_in: &str, denom_out: &str) -> (r: Route)
        ensures
            r == route_of(self@.pool.alloyed_denom, denom_in@, denom_out@),
    {
        let alloyed = self.pool.alloyed_denom().as_str();
        if rank(denom_in, alloyed) == Rank::Same {
            Route::AlloyedIn
        } else if rank(denom_out, alloyed) == Rank::Same {
            Route::AlloyedOut
        } else {
            Route::Assets
        }
    }

    /// Passes the change of the pool to `after` through the limiters.
    fn limit(&mut self, after: &TransmuterPool, now: u64) -> (r: Result<(), ContractError>)
        requires
            old(self).wf(),
            after.wf(),
        ensures
            final(self).wf(),
            final(self).pool == old(self).pool,
            final(self).asset_groups == old(self).asset_groups,
            final(self).active_status == old(self).active_status,
            match r {
                Ok(_) => try_limit(
                    old(self)@.limiters,
                    old(self)@.pool,
                    after@,
                    old(self)@.asset_groups,
                    old(self)@.labels,
                    now,
                ) == Ok::<Windows, ContractErrorView>(final(self)@.limiters),
                Err(e) => try_limit(
                    old(self)@.limiters,
                    old(self)@.pool,
                    after@,
                    old(self)@.asset_groups,
                    old(self)@.labels,
                    now,
                ) == Err::<Windows, ContractErrorView>(e@) && *final(self) == *old(self),
            },
    {
        match limiter_batch_of(&self.pool, after, &self.asset_groups) {
            Err(e) => Err(e),
            Ok(None) => Ok(()),
            Ok(Some(batch)) => self.limiters.check_limits_and_update(&batch, now),
        }
    }

    /// Swaps the exact amount `token_in` for `token_out_denom` on behalf of
    /// `sender`. Shares that come in are burnt and redeemed one for one;
    /// for an asset that comes in, shares are minted one for one where
    /// shares are asked for, and else the other asset goes out, less the
    /// fee. The swap fails where less than `token_out_min_amount` would
    /// come out and where the limiters do not admit the weights after it.
    pub fn swap_exact_amount_in(
        &mut self,
        sender: &str,
        token_in: Coin,
        token_out_denom: &str,
        token_out_min_amount: u128,
        swap_fee: Decimal,
        now: u64,
    ) -> (r: Result<Response, ContractError>)
        requires
            old(self).wf(),
        ensures
            final(self).wf(),
            match r {
                Ok(response) => old(self)@.try_swap_exact_amount_in(
                    sender@,
                    token_in@,
                    token_out_denom@,
                    token_out_min_amount,
                    swap_fee.atomics,
                    now,
                ) == Ok::<(TransmuterView, ResponseView), ContractErrorView>(
                    (final(self)@, response@),
                ),
                Err(e) => old(self)@.try_swap_exact_amount_in(
                    sender@,
                    token_in@,
                    token_out_denom@,
                    token_out_min_amount,
                    swap_fee.atomics,
                    now,
                ) == Err::<(TransmuterView, ResponseView), ContractErrorView>(e@) && *final(self)
                    == *old(self),
            },
    {
        let route = self.route(token_in.denom.as_str(), token_out_denom);
        let amount = token_in.amount;
        let mut after = self.pool.snapshot();
        let token_out = match route {
            Route::AlloyedIn => {
                match after.debit(token_out_denom, amount) {
                    Err(e) => {
                        return Err(e);
                    },
                    Ok(_) => Coin { denom: token_out_denom.to_owned(), amount },
                }
            },
            Route::AlloyedOut => {
                match after.credit(token_in.denom.as_str(), amount) {
                    Err(e) => {
                        return Err(e);
                    },
                    Ok(_) => Coin { denom: token_out_denom.to_owned(), amount },
                }
            },
            Route::Assets => match calc_out_given_in(
                &self.pool,
                &token_in,
                token_out_denom,
                swap_fee,
            ) {
                Err(e) => {
                    return Err(e);
                },
                Ok((swapped, token_out)) => {
                    proof {
                        lemma_swap_in_keeps_value(
                            self.pool@,
                            token_in@,
                            token_out_denom@,
                            swap_fee.atomics,
                        );
                        crate::swap::lemma_exchange_total(
                            self.pool@,
                            token_in.denom@,
                            amount,
                            token_out_denom@,
                            token_out.amount,
                        );
                    }
                    if swap_fee.atomics == 0 && token_out.amount != amount {
                        return Err(
                            ContractError::InvalidTokenOutAmount {
                                expected: amount,
                                actual: token_out.amount,
                            },
                        );
                    }
                    after = swapped;
                    token_out
                },
            },
        };
        if token_out.amount < token_out_min_amount {
            return Err(
                ContractError::InsufficientTokenOut {
                    required: token_out_min_amount,
                    available: token_out.amount,
                },
            );
        }
        match self.limit(&after, now) {
            Err(e) => {
                return Err(e);
            },
            Ok(_) => {},
        }
        self.pool = after;
        let data = ResponseData::SwapExactAmountIn(
            SwapExactAmountInResponseData { token_out_amount: token_out.amount },
        );
        Ok(
            Response {
                method: String::from_str("swap_exact_amount_in"),
                messages: messages(route, sender, token_in, token_out),
                data: Some(data),
            },
        )
    }

    /// Swaps for the exact amount `token_out`, paid in `token_in_denom`, on
    /// behalf of `sender`. Shares are burnt and minted one for one; a
    /// pooled asset that pays for another pays the fee on top. The swap
    /// fails where more than `token_in_max_amount` would have to come in
    /// and where the limiters do not admit the weights after it.
    pub fn swap_exact_amount_out(
        &mut self,
        sender: &str,
        token_in_denom: &str,
        token_in_max_amount: u128,
        token_out: Coin,
        swap_fee: Decimal,
        now: u64,
    ) -> (r: Result<Response, ContractError>)
        requires
            old(self).wf(),
        ensures
            final(self).wf(),
            match r {
                Ok(response) => old(self)@.try_swap_exact_amount_out(
                    sender@,
                    token_in_denom@,
                    token_in_max_amount,
                    token_out@,
                    swap_fee.atomics,
                    now,
                ) == Ok::<(TransmuterView, ResponseView), ContractErrorView>(
                    (final(self)@, response@),
                ),
                Err(e) => old(self)@.try_swap_exact_amount_out(
                    sender@,
                    token_in_denom@,
                    token_in_max_amount,
                    token_out@,
                    swap_fee.atomics,
                    now,
                ) == Err::<(TransmuterView, ResponseView), ContractErrorView>(e@) && *final(self)
                    == *old(self),
            },
    {
        let route = self.route(token_in_denom, token_out.denom.as_str());
        let amount = token_out.amount;
        let mut after = self.pool.snapshot();
        let token_in = match route {
            Route::AlloyedIn => match after.debit(token_out.denom.as_str(), amount) {
                Err(e) => {
                    return Err(e);
                },
                Ok(_) => Coin { denom: token_in_denom.to_owned(), amount },
            },
            Route::AlloyedOut => match after.credit(token_in_denom, amount) {
                Err(e) => {
                    return Err(e);
                },
                Ok(_) => Coin { denom: token_in_denom.to_owned(), amount },
            },
            Route::Assets => match calc_in_given_out(
                &self.pool,
                &token_out,
                token_in_denom,
                swap_fee,
            ) {
                Err(e) => {
                    return Err(e);
                },
                Ok((swapped, token_in)) => {
                    proof {
                        lemma_swap_out_keeps_value(
                            self.pool@,
                            token_out@,
                            token_in_denom@,
                            swap_fee.atomics,
                        );
                        crate::swap::lemma_exchange_total(
                            self.pool@,
                            token_in_denom@,
                            token_in.amount,
                            token_out.denom@,
                            amount,
                        );
                    }
                    if swap_fee.atomics == 0 && token_in.amount != amount {
                        return Err(
                            ContractError::InvalidTokenInAmount {
                                expected: amount,
                                actual: token_in.amount,
                            },
                        );
                    }
                    after = swapped;
                    token_in
                },
            },
        };
        if token_in.amount > token_in_max_amount {
            return Err(
                ContractError::ExcessiveRequiredTokenIn {
                    limit: token_in_max_amount,
                    required: token_in.amount,
                },
            );
        }
        match self.limit(&after, now) {
            Err(e) => {
                return Err(e);
            },
            Ok(_) => {},
        }
        self.pool = after;
        let data = ResponseData::SwapExactAmountOut(
            SwapExactAmountOutResponseData { token_in_amount: token_in.amount },
        );
        Ok(
            Response {
                method: String::from_str("swap_exact_amount_out"),
                messages: messages(route, sender, token_in, token_out),
                data: Some(data),
            },
        )
    }

    /// Supplies the pool with the funds, which must be exactly one coin of
    /// a pooled asset. Nothing goes out for them.
    pub fn supply(&mut self, funds: &Vec<Coin>) -> (r: Result<Response, ContractError>)
        requires
            old(self).wf(),
        ensures
            final(self).wf(),
            match r {
                Ok(response) => {
                    &&& old(self)@.pool.try_supply(coins_of(funds@)) == Ok::<
                        PoolView,
                        ContractErrorView,
                    >(final(self)@.pool)
                    &&& final(self)@ == (TransmuterView { pool: final(self)@.pool, ..old(self)@ })
                    &&& response@ == (ResponseView {
                        method: "supply"@,
                        messages: Seq::empty(),
                        data: None,
                    })
                },
                Err(e) => old(self)@.pool.try_supply(coins_of(funds@)) == Err::<
                    PoolView,
                    ContractErrorView,
                >(e@) && *final(self) == *old(self),
            },
    {
        match self.pool.supply(funds) {
            Err(e) => Err(e),
            Ok(_) => {
                let response = Response {
                    method: String::from_str("supply"),
                    messages: Vec::new(),
                    data: None,
                };
                proof {
                    assert(response@.messages =~= Seq::empty());
                }
                Ok(response)
            },
        }
    }

    /// Transmutes the funds, which must be exactly one coin of one asset of
    /// a pool of two, and has the same amount of the other asset sent to
    /// `sender`.
    pub fn transmute(&mut self, sender: &str, funds: &Vec<Coin>) -> (r: Result<
        Response,
        ContractError,
    >)
        requires
            old(self).wf(),
        ensures
            final(self).wf(),
            match r {
                Ok(response) => {
                    &&& old(self)@.pool.try_transmute(coins_of(funds@)) is Ok
                    &&& final(self)@ == (TransmuterView {
                        pool: old(self)@.pool.try_transmute(coins_of(funds@))->Ok_0.0,
                        ..old(self)@
                    })
                    &&& response@ == (ResponseView {
                        method: "transmute"@,
                        messages: seq![
                            MsgView::Send {
                                to_address: sender@,
                                amount: old(self)@.pool.try_transmute(coins_of(funds@))->Ok_0.1,
                            },
                        ],
                        data: None,
                    })
                },
                Err(e) => old(self)@.pool.try_transmute(coins_of(funds@)) == Err::<
                    (PoolView, CoinView),
                    ContractErrorView,
                >(e@) && *final(self) == *old(self),
            },
    {
        match self.pool.transmute(funds) {
            Err(e) => Err(e),
            Ok(coin) => {
                let mut list: Vec<Msg> = Vec::new();
                list.push(Msg::Send { to_address: sender.to_owned(), amount: coin });
                let response = Response {
                    method: String::from_str("transmute"),
                    messages: list,
                    data: None,
                };
                proof {
                    assert(response@.messages =~= seq![
                        MsgView::Send { to_address: sender@, amount: coin@ },
                    ]);
                }
                Ok(response)
            },
        }
    }

    /// Sets whether the pool is active.
    pub fn set_active(&mut self, is_active: bool) -> (response: Response)
        ensures
            *final(self) == (Transmuter { active_status: is_active, ..*old(self) }),
            response@ == (ResponseView { method: "set_active"@, messages: Seq::empty(), data: None }),
    {
        self.active_status = is_active;
        let response = Response {
            method: String::from_str("set_active"),
            messages: Vec::new(),
            data: None,
        };
        proof {
            assert(response@.messages =~= Seq::empty());
        }
        response
    }

    /// An active transmuter with an empty pool of the given assets and the
    /// given alloyed denomination, without groups or limiters.
    pub fn instantiate(pool_asset_denoms: Vec<String>, alloyed_denom: String) -> (r: Result<
        (Self, Response),
        ContractError,
    >)
        ensures
            match r {
                Ok((t, response)) => {
                    &&& t.wf()
                    &&& t@.pool.alloyed_denom == alloyed_denom@
                    &&& t@.pool.total() == 0
                    &&& forall|d: Seq<char>|
                        t@.pool.has(d) <==> labels_of(pool_asset_denoms@).contains(d)
                    &&& forall|i: int|
                        0 <= i < t@.pool.assets.len() ==> t@.pool.assets[i] == (PooledAsset {
                            balance: 0,
                            is_corrupted: false,
                        })
                    &&& t@.asset_groups == Map::<Seq<char>, crate::asset_group::AssetGroupView>::empty()
                    &&& t@.labels == Seq::<Seq<char>>::empty()
                    &&& t@.limiters == Map::<Seq<char>, crate::limiter::LimiterView>::empty()
                    &&& t@.active_status
                    &&& response@ == (ResponseView {
                        method: "instantiate"@,
                        messages: Seq::empty(),
                        data: None,
                    })
                    &&& forall|i: int|
                        0 <= i < pool_asset_denoms@.len() ==> !clashes_at(
                            labels_of(pool_asset_denoms@),
                            alloyed_denom@,
                            i,
                        )
                },
                Err(e) => exists|i: int|
                    {
                        &&& 0 <= i < pool_asset_denoms@.len()
                        &&& clashes_at(labels_of(pool_asset_denoms@), alloyed_denom@, i)
                        &&& forall|j: int|
                            0 <= j < i ==> !clashes_at(
                                labels_of(pool_asset_denoms@),
                                alloyed_denom@,
                                j,
                            )
                        &&& e@ == (ContractErrorView::DuplicatedPoolAssetDenom {
                            denom: labels_of(pool_asset_denoms@)[i],
                        })
                    },
            },
    {
        match TransmuterPool::new(pool_asset_denoms, alloyed_denom) {
            Err(e) => Err(e),
            Ok(pool) => {
                let response = Response {
                    method: String::from_str("instantiate"),
                    messages: Vec::new(),
                    data: None,
                };
                proof {
                    assert(response@.messages =~= Seq::empty());
                }
                Ok((Transmuter::new(pool), response))
            },
        }
    }
}

} // verus!
