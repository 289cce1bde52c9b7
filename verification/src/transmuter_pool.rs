//! The pool ledger: the balance of each pooled asset, under its
//! denomination, and the denomination of the alloyed share asset.

use crate::corruptable::Corruptable;
use crate::error::{ContractError, ContractErrorView};
use crate::label::strictly_increasing;
use crate::math::{
    lemma_sum_bounds, lemma_sum_insert, lemma_sum_update, share_of, sum_of, weight, Decimal,
    DECIMAL_ONE,
};
use crate::table::{labels_of, OrderedTable};
use vstd::prelude::*;

verus! {

/// An amount of one denomination.
#[derive(Clone, Debug, PartialEq, Eq)]
pub struct Coin {
    pub denom: String,
    pub amount: u128,
}

/// A coin with its denomination as a plain sequence.
pub ghost struct CoinView {
    pub denom: Seq<char>,
    pub amount: u128,
}

impl View for Coin {
    type V = CoinView;

    open spec fn view(&self) -> CoinView {
        CoinView { denom: self.denom@, amount: self.amount }
    }
}

impl Coin {
    /// The coin of `amount` of `denom`.
    pub fn new(amount: u128, denom: String) -> (c: Self)
        ensures
            c@ == (CoinView { denom: denom@, amount }),
    {
        Coin { denom, amount }
    }
}

/// What the pool holds of one asset, kept under the asset's denomination,
/// with the asset's corruption mark.
#[derive(Clone, Copy, Debug, PartialEq, Eq, Structural)]
pub struct PooledAsset {
    pub balance: u128,
    pub is_corrupted: bool,
}

impl Corruptable for PooledAsset {
    open spec fn corrupted(&self) -> bool {
        self.is_corrupted
    }

    open spec fn same_but_for_mark(&self, other: &Self) -> bool {
        self.balance == other.balance
    }

    fn is_corrupted(&self) -> (b: bool) {
        self.is_corrupted
    }

    fn mark_as_corrupted(&mut self) -> (r: &mut Self) {
        self.is_corrupted = true;
        self
    }

    fn unmark_as_corrupted(&mut self) -> (r: &mut Self) {
        self.is_corrupted = false;
        self
    }
}

/// What a supply of no coin, or of more than one, is told.
pub const SUPPLY_NEEDS_ONE_DENOM: &'static str = "supply requires funds to have exactly one denom";

/// The balances of a list of assets, one for one.
pub open spec fn balances_of(assets: Seq<PooledAsset>) -> Seq<u128> {
    assets.map_values(|a: PooledAsset| a.balance)
}

/// What a pool holds: its denominations in order, the asset under each, and
/// the alloyed denomination.
pub ghost struct PoolView {
    pub denoms: Seq<Seq<char>>,
    pub assets: Seq<PooledAsset>,
    pub alloyed_denom: Seq<char>,
}

impl PoolView {
    /// Each denomination has one asset, the denominations strictly
    /// increase, and the alloyed denomination is none of them.
    pub open spec fn wf(self) -> bool {
        &&& self.denoms.len() == self.assets.len()
        &&& strictly_increasing(self.denoms)
        &&& !self.denoms.contains(self.alloyed_denom)
    }

    /// The total pooled balance. The assets are pegged one to one, so this
    /// is the value of the pool.
    pub open spec fn total(self) -> int {
        sum_of(balances_of(self.assets))
    }

    /// Whether `denom` is a pooled asset.
    pub open spec fn has(self, denom: Seq<char>) -> bool {
        self.denoms.contains(denom)
    }

    /// The place of a pooled asset in the order.
    pub open spec fn index_of(self, denom: Seq<char>) -> int {
        self.denoms.index_of(denom)
    }

    /// The balance of a pooled asset.
    pub open spec fn balance_of(self, denom: Seq<char>) -> u128 {
        self.assets[self.index_of(denom)].balance
    }

    /// Whether a pooled asset is marked as corrupted.
    pub open spec fn is_corrupted(self, denom: Seq<char>) -> bool {
        self.assets[self.index_of(denom)].is_corrupted
    }

    /// The pool with `balance` as the balance of `denom`.
    pub open spec fn with_balance(self, denom: Seq<char>, balance: u128) -> PoolView {
        let i = self.index_of(denom);
        PoolView {
            assets: self.assets.update(
                i,
                PooledAsset { balance, is_corrupted: self.assets[i].is_corrupted },
            ),
            ..self
        }
    }

    /// The pool with `mark` as the corruption mark of `denom`.
    pub open spec fn with_mark(self, denom: Seq<char>, mark: bool) -> PoolView {
        let i = self.index_of(denom);
        PoolView {
            assets: self.assets.update(
                i,
                PooledAsset { balance: self.assets[i].balance, is_corrupted: mark },
            ),
            ..self
        }
    }

    /// The pool after `amount` of `denom` came in.
    pub open spec fn credited(self, denom: Seq<char>, amount: u128) -> PoolView {
        self.with_balance(denom, (self.balance_of(denom) + amount) as u128)
    }

    /// The pool after `amount` of `denom` went out.
    pub open spec fn debited(self, denom: Seq<char>, amount: u128) -> PoolView {
        self.with_balance(denom, (self.balance_of(denom) - amount) as u128)
    }

    /// The pool after `amount` of `denom` came in, where `denom` is a pooled
    /// asset and its balance can still be held.
    pub open spec fn try_credit(self, denom: Seq<char>, amount: u128) -> Result<
        PoolView,
        ContractErrorView,
    > {
        if !self.has(denom) {
            Err(ContractErrorView::InvalidPoolAssetDenom { denom })
        } else if self.balance_of(denom) + amount > u128::MAX {
            Err(ContractErrorView::AmountOverflow)
        } else {
            Ok(self.credited(denom, amount))
        }
    }

    /// The pool after `amount` of `denom` went out, where `denom` is a
    /// pooled asset of which the pool holds that much.
    pub open spec fn try_debit(self, denom: Seq<char>, amount: u128) -> Result<
        PoolView,
        ContractErrorView,
    > {
        if !self.has(denom) {
            Err(ContractErrorView::InvalidPoolAssetDenom { denom })
        } else if self.balance_of(denom) < amount {
            Err(
                ContractErrorView::InsufficientPoolAsset {
                    denom,
                    required: amount,
                    available: self.balance_of(denom),
                },
            )
        } else {
            Ok(self.debited(denom, amount))
        }
    }

    /// The pool after the funds were supplied, which must be one coin of a
    /// pooled asset.
    pub open spec fn try_supply(self, funds: Seq<CoinView>) -> Result<PoolView, ContractErrorView> {
        if funds.len() != 1 {
            Err(ContractErrorView::Std { msg: SUPPLY_NEEDS_ONE_DENOM@ })
        } else {
            self.try_credit(funds[0].denom, funds[0].amount)
        }
    }

    /// The pool and the coin that comes out after the funds were transmuted:
    /// one coin of one asset of a pool of two, for the same amount of the
    /// other asset.
    pub open spec fn try_transmute(self, funds: Seq<CoinView>) -> Result<
        (PoolView, CoinView),
        ContractErrorView,
    > {
        if funds.len() != 1 {
            Err(ContractErrorView::SingleCoinExpected)
        } else if self.denoms.len() != 2 {
            Err(ContractErrorView::NotTwoAssetPool { assets: self.denoms.len() as u64 })
        } else if !self.has(funds[0].denom) {
            Err(ContractErrorView::InvalidPoolAssetDenom { denom: funds[0].denom })
        } else {
            let counterpart = self.denoms[1 - self.index_of(funds[0].denom)];
            let amount = funds[0].amount;
            if self.balance_of(counterpart) < amount {
                Err(
                    ContractErrorView::InsufficientPoolAsset {
                        denom: counterpart,
                        required: amount,
                        available: self.balance_of(counterpart),
                    },
                )
            } else if self.balance_of(funds[0].denom) + amount > u128::MAX {
                Err(ContractErrorView::AmountOverflow)
            } else {
                Ok(
                    (
                        self.debited(counterpart, amount).credited(funds[0].denom, amount),
                        CoinView { denom: counterpart, amount },
                    ),
                )
            }
        }
    }

    /// The weight of each pooled asset, in the order of the denominations:
    /// its share of the total as a decimal, rounded down.
    pub open spec fn weights(self) -> Seq<(Seq<char>, Decimal)>
        recommends
            0 < self.total() <= u128::MAX,
    {
        Seq::new(
            self.denoms.len(),
            |i: int|
                (
                    self.denoms[i],
                    Decimal {
                        atomics: share_of(self.assets[i].balance, self.total() as u128) as u128,
                    },
                ),
        )
    }

    /// The weights of the pool: none where the pool is empty, and a
    /// failure where the total is more than can be held.
    pub open spec fn try_weights(self) -> Result<
        Option<Seq<(Seq<char>, Decimal)>>,
        ContractErrorView,
    > {
        if self.total() > u128::MAX {
            Err(ContractErrorView::AmountOverflow)
        } else if self.total() == 0 {
            Ok(None)
        } else {
            Ok(Some(self.weights()))
        }
    }

    /// The sum of the weights of the first `n` pooled assets, in atomic
    /// units.
    pub open spec fn weight_sum(self, n: int) -> int
        decreases n,
    {
        if n <= 0 {
            0
        } else {
            self.weight_sum(n - 1) + share_of(self.assets[n - 1].balance, self.total() as u128)
        }
    }

    /// The weights of the first `n` pooled assets sum to the share of
    /// their balances in the total, but for what rounding down takes off
    /// each of them, which is less than one atomic unit.
    pub proof fn lemma_weight_sum_bounds(self, n: int)
        requires
            self.wf(),
            0 < self.total() <= u128::MAX,
            0 <= n <= self.denoms.len(),
        ensures
            self.weight_sum(n) * self.total() <= sum_of(balances_of(self.assets).take(n))
                * DECIMAL_ONE,
            self.weight_sum(n) * self.total() >= sum_of(balances_of(self.assets).take(n))
                * DECIMAL_ONE - n * (self.total() - 1),
        decreases n,
    {
        let balances = balances_of(self.assets);
        let t = self.total();
        let one = DECIMAL_ONE as int;
        if n == 0 {
            assert(balances.take(0) =~= Seq::<u128>::empty());
        } else {
            self.lemma_weight_sum_bounds(n - 1);
            lemma_sum_bounds(balances, n - 1);
            let b = self.assets[n - 1].balance as int;
            let w = share_of(self.assets[n - 1].balance, t as u128);
            let s = sum_of(balances.take(n - 1));
            let ws = self.weight_sum(n - 1);
            assert(balances[n - 1] == b);
            assert(w == (b * one) / t);
            assert(w * t <= b * one && w * t >= b * one - (t - 1)) by (nonlinear_arith)
                requires
                    w == (b * one) / t,
                    t > 0,
            ;
            assert((ws + w) * t == ws * t + w * t) by (nonlinear_arith);
            assert((s + b) * one == s * one + b * one) by (nonlinear_arith);
            assert(n * (t - 1) == (n - 1) * (t - 1) + (t - 1)) by (nonlinear_arith);
        }
    }

    /// The weights of a pool that is not empty sum to one whole, but for
    /// what rounding down takes off: less than one atomic unit for each
    /// pooled asset.
    pub proof fn lemma_weights_sum_to_one(self)
        requires
            self.wf(),
            0 < self.total() <= u128::MAX,
        ensures
            DECIMAL_ONE - self.denoms.len() < self.weight_sum(self.denoms.len() as int)
                <= DECIMAL_ONE,
    {
        let n = self.denoms.len() as int;
        let t = self.total();
        let one = DECIMAL_ONE as int;
        let w = self.weight_sum(n);
        self.lemma_weight_sum_bounds(n);
        assert(balances_of(self.assets).take(n) =~= balances_of(self.assets));
        assert(w <= one) by (nonlinear_arith)
            requires
                w * t <= t * one,
                t > 0,
        ;
        if n == 0 {
            assert(balances_of(self.assets) =~= Seq::<u128>::empty());
        }
        assert(n * (t - 1) == n * t - n) by (nonlinear_arith);
        assert((one - n) * t == t * one - n * t) by (nonlinear_arith);
        assert(w > one - n) by (nonlinear_arith)
            requires
                w * t > (one - n) * t,
                t > 0,
        ;
    }

    /// A new balance for a pooled asset moves the total by the difference
    /// and leaves everything else as it was: the other balances, every
    /// mark, the denominations and their order.
    pub proof fn lemma_with_balance(self, denom: Seq<char>, balance: u128)
        requires
            self.wf(),
            self.has(denom),
        ensures
            self.with_balance(denom, balance).wf(),
            self.with_balance(denom, balance).total() == self.total() - self.balance_of(denom)
                + balance,
            self.with_balance(denom, balance).denoms == self.denoms,
            self.with_balance(denom, balance).alloyed_denom == self.alloyed_denom,
            self.with_balance(denom, balance).balance_of(denom) == balance,
            forall|other: Seq<char>|
                self.has(other) && other != denom ==> #[trigger] self.with_balance(
                    denom,
                    balance,
                ).balance_of(other) == self.balance_of(other),
            forall|other: Seq<char>|
                self.has(other) ==> #[trigger] self.with_balance(denom, balance).is_corrupted(
                    other,
                ) == self.is_corrupted(other),
            self.balance_of(denom) <= self.total(),
    {
        let i = self.index_of(denom);
        let after = self.with_balance(denom, balance);
        assert(balances_of(after.assets) =~= balances_of(self.assets).update(i, balance));
        lemma_sum_update(balances_of(self.assets), i, balance);
        lemma_sum_bounds(balances_of(self.assets), i);
    }
}

/// The weights of a list, each with its key as a plain sequence.
pub open spec fn pairs_of(weights: Seq<(String, Decimal)>) -> Seq<(Seq<char>, Decimal)> {
    weights.map_values(|p: (String, Decimal)| (p.0@, p.1))
}

/// The coins of a list, one for one.
pub open spec fn coins_of(funds: Seq<Coin>) -> Seq<CoinView> {
    funds.map_values(|c: Coin| c@)
}

/// The pool ledger.
#[derive(Clone, Debug, PartialEq, Eq)]
pub struct TransmuterPool {
    assets: OrderedTable<PooledAsset>,
    alloyed_denom: String,
}

impl View for TransmuterPool {
    type V = PoolView;

    closed spec fn view(&self) -> PoolView {
        PoolView {
            denoms: self.assets.keys(),
            assets: self.assets.values(),
            alloyed_denom: self.alloyed_denom@,
        }
    }
}

/// Whether the denomination at index `i` is the alloyed one or stands in
/// the list before `i` already.
pub open spec fn clashes_at(denoms: Seq<Seq<char>>, alloyed_denom: Seq<char>, i: int) -> bool {
    denoms[i] == alloyed_denom || denoms.take(i).contains(denoms[i])
}

impl TransmuterPool {
    /// The pool's invariant, which every operation keeps.
    pub open spec fn wf(&self) -> bool {
        self@.wf()
    }

    /// An empty pool of the given assets. Each denomination may be named
    /// once, and none may be the alloyed one: the first that breaks this is
    /// reported.
    pub fn new(pool_asset_denoms: Vec<String>, alloyed_denom: String) -> (r: Result<
        Self,
        ContractError,
    >)
        ensures
            match r {
                Ok(pool) => {
                    &&& pool.wf()
                    &&& pool@.alloyed_denom == alloyed_denom@
                    &&& pool@.total() == 0
                    &&& forall|i: int|
                        0 <= i < pool_asset_denoms@.len() ==> !clashes_at(
                            labels_of(pool_asset_denoms@),
                            alloyed_denom@,
                            i,
                        )
                    &&& forall|d: Seq<char>|
                        pool@.has(d) <==> labels_of(pool_asset_denoms@).contains(d)
                    &&& forall|i: int|
                        0 <= i < pool@.assets.len() ==> pool@.assets[i] == (PooledAsset {
                            balance: 0,
                            is_corrupted: false,
                        })
                },
                Err(e) => exists|i: int|
                    {
                        &&& 0 <= i < pool_asset_denoms@.len()
                        &&& clashes_at(labels_of(pool_asset_denoms@), alloyed_denom@, i)
                        &&& forall|j: int|
                            0 <= j < i ==> !clashes_at(
                                labels_of(pool_asset_denoms@),
                                alloyed_denom@,
                                j,
                            )
                        &&& e@ == (ContractErrorView::DuplicatedPoolAssetDenom {
                            denom: labels_of(pool_asset_denoms@)[i],
                        })
                    },
            },
    {
        let ghost names = labels_of(pool_asset_denoms@);
        let mut assets: OrderedTable<PooledAsset> = OrderedTable::new();
        let mut i: usize = 0;
        proof {
            assert(balances_of(assets.values()) =~= Seq::<u128>::empty());
        }
        while i < pool_asset_denoms.len()
            invariant
                i <= pool_asset_denoms@.len(),
                names == labels_of(pool_asset_denoms@),
                assets.wf(),
                sum_of(balances_of(assets.values())) == 0,
                forall|j: int| 0 <= j < i ==> !clashes_at(names, alloyed_denom@, j),
                forall|d: Seq<char>|
                    #[trigger] assets.contains(d) <==> names.take(i as int).contains(d),
                forall|j: int|
                    0 <= j < assets.values().len() ==> assets.values()[j] == (PooledAsset {
                        balance: 0,
                        is_corrupted: false,
                    }),
            decreases pool_asset_denoms@.len() - i,
        {
            let denom = &pool_asset_denoms[i];
            assert(denom@ == names[i as int]);
            if *denom == alloyed_denom || assets.position(denom.as_str()).is_some() {
                assert(clashes_at(names, alloyed_denom@, i as int));
                return Err(ContractError::DuplicatedPoolAssetDenom { denom: denom.clone() });
            }
            assert(!clashes_at(names, alloyed_denom@, i as int));
            let ghost before = assets;
            let at = assets.insert_new(
                denom.clone(),
                PooledAsset { balance: 0, is_corrupted: false },
            );
            proof {
                assert(balances_of(assets.values()) =~= balances_of(before.values()).insert(
                    at as int,
                    0,
                ));
                lemma_sum_insert(balances_of(before.values()), at as int, 0);
                assert(names.take(i + 1) =~= names.take(i as int).push(names[i as int]));
                assert forall|d: Seq<char>| assets.contains(d) <==> names.take(i + 1).contains(
                    d,
                ) by {
                    assert(assets.map().contains_key(d) <==> assets.contains(d));
                    assert(before.map().contains_key(d) <==> before.contains(d));
                    if names.take(i as int).contains(d) {
                        let j = names.take(i as int).index_of(d);
                        assert(names.take(i + 1)[j] == d);
                    }
                    if names.take(i + 1).contains(d) && d != names[i as int] {
                        let j = names.take(i + 1).index_of(d);
                        assert(names.take(i as int)[j] == d);
                    }
                    assert(names.take(i + 1)[i as int] == names[i as int]);
                }
            }
            i += 1;
        }
        proof {
            assert(names.take(i as int) =~= names);
            if assets.contains(alloyed_denom@) {
                let j = names.index_of(alloyed_denom@);
                assert(clashes_at(names, alloyed_denom@, j));
            }
        }
        let pool = TransmuterPool { assets, alloyed_denom };
        assert(pool@.total() == 0);
        assert(pool.wf());
        assert forall|d: Seq<char>| pool@.has(d) <==> names.contains(d) by {
            assert(pool.assets.contains(d) <==> names.take(i as int).contains(d));
        }
        Ok(pool)
    }

    /// The alloyed denomination.
    pub fn alloyed_denom(&self) -> (d: &String)
        ensures
            d@ == self@.alloyed_denom,
    {
        &self.alloyed_denom
    }

    /// Whether `denom` is a pooled asset.
    pub fn has_denom(&self, denom: &str) -> (b: bool)
        requires
            self.wf(),
        ensures
            b == self@.has(denom@),
    {
        self.assets.position(denom).is_some()
    }

    /// The pool holds the asset at index `i` under the denomination at `i`.
    proof fn lemma_at(&self, i: int)
        requires
            self.wf(),
            0 <= i < self@.denoms.len(),
        ensures
            self@.has(self@.denoms[i]),
            self@.index_of(self@.denoms[i]) == i,
    {
        let d = self@.denoms[i];
        assert(self@.denoms.contains(d));
        self.assets.lemma_index_unique(i, self@.denoms.index_of(d));
    }

    /// The number of pooled assets.
    pub fn len(&self) -> (n: usize)
        requires
            self.wf(),
        ensures
            n == self@.denoms.len(),
    {
        self.assets.len()
    }

    /// The denomination at an index of the order of the denominations.
    pub fn denom_at(&self, i: usize) -> (denom: &String)
        requires
            self.wf(),
            i < self@.denoms.len(),
        ensures
            denom@ == self@.denoms[i as int],
    {
        self.assets.key_at(i)
    }

    /// The asset at an index of the order of the denominations.
    pub fn asset_at(&self, i: usize) -> (asset: PooledAsset)
        requires
            self.wf(),
            i < self@.denoms.len(),
        ensures
            asset == self@.assets[i as int],
    {
        *self.assets.value_at(i)
    }

    /// The asset under `denom`, if it is a pooled asset.
    pub fn asset(&self, denom: &str) -> (r: Option<PooledAsset>)
        requires
            self.wf(),
        ensures
            r is Some <==> self@.has(denom@),
            r matches Some(a) ==> a.balance == self@.balance_of(denom@) && a.is_corrupted
                == self@.is_corrupted(denom@),
    {
        match self.assets.position(denom) {
            Some(i) => {
                proof {
                    self.lemma_at(i as int);
                }
                Some(*self.assets.value_at(i))
            },
            None => None,
        }
    }

    /// The total pooled balance, or `None` where it is more than can be
    /// held.
    pub fn total(&self) -> (t: Option<u128>)
        requires
            self.wf(),
        ensures
            match t {
                Some(total) => total == self@.total(),
                None => self@.total() > u128::MAX,
            },
    {
        let ghost balances = balances_of(self.assets.values());
        let mut t: u128 = 0;
        let mut i: usize = 0;
        while i < self.assets.len()
            invariant
                self.wf(),
                balances == balances_of(self.assets.values()),
                i <= balances.len(),
                t == sum_of(balances.take(i as int)),
            decreases balances.len() - i,
        {
            proof {
                lemma_sum_bounds(balances, i as int);
            }
            let balance = self.assets.value_at(i).balance;
            if balance > u128::MAX - t {
                return None;
            }
            t = t + balance;
            i += 1;
        }
        proof {
            assert(balances.take(i as int) =~= balances);
        }
        Some(t)
    }

    /// Puts `balance` in the place of the balance at index `i`.
    fn set_balance_at(&mut self, i: usize, balance: u128)
        requires
            old(self).wf(),
            i < old(self)@.denoms.len(),
        ensures
            final(self).wf(),
            final(self)@ == old(self)@.with_balance(old(self)@.denoms[i as int], balance),
    {
        proof {
            self.lemma_at(i as int);
            self@.lemma_with_balance(self@.denoms[i as int], balance);
        }
        let asset = *self.assets.value_at(i);
        self.assets.set_value_at(i, PooledAsset { balance, is_corrupted: asset.is_corrupted });
    }

    /// Takes `amount` of `denom` into the pool.
    pub fn credit(&mut self, denom: &str, amount: u128) -> (r: Result<(), ContractError>)
        requires
            old(self).wf(),
        ensures
            final(self).wf(),
            final(self)@.denoms == old(self)@.denoms,
            final(self)@.alloyed_denom == old(self)@.alloyed_denom,
            match r {
                Ok(_) => old(self)@.try_credit(denom@, amount) == Ok::<
                    PoolView,
                    ContractErrorView,
                >(final(self)@),
                Err(e) => old(self)@.try_credit(denom@, amount) == Err::<
                    PoolView,
                    ContractErrorView,
                >(e@) && *final(self) == *old(self),
            },
    {
        match self.assets.position(denom) {
            None => Err(ContractError::InvalidPoolAssetDenom { denom: denom.to_owned() }),
            Some(i) => {
                proof {
                    self.lemma_at(i as int);
                }
                let balance = self.assets.value_at(i).balance;
                if amount > u128::MAX - balance {
                    return Err(ContractError::AmountOverflow);
                }
                self.set_balance_at(i, balance + amount);
                Ok(())
            },
        }
    }

    /// Lets `amount` of `denom` out of the pool.
    pub fn debit(&mut self, denom: &str, amount: u128) -> (r: Result<(), ContractError>)
        requires
            old(self).wf(),
        ensures
            final(self).wf(),
            final(self)@.denoms == old(self)@.denoms,
            final(self)@.alloyed_denom == old(self)@.alloyed_denom,
            match r {
                Ok(_) => old(self)@.try_debit(denom@, amount) == Ok::<PoolView, ContractErrorView>(
                    final(self)@,
                ),
                Err(e) => old(self)@.try_debit(denom@, amount) == Err::<
                    PoolView,
                    ContractErrorView,
                >(e@) && *final(self) == *old(self),
            },
    {
        match self.assets.position(denom) {
            None => Err(ContractError::InvalidPoolAssetDenom { denom: denom.to_owned() }),
            Some(i) => {
                proof {
                    self.lemma_at(i as int);
                }
                let balance = self.assets.value_at(i).balance;
                if balance < amount {
                    return Err(
                        ContractError::InsufficientPoolAsset {
                            denom: denom.to_owned(),
                            required: amount,
                            available: balance,
                        },
                    );
                }
                self.set_balance_at(i, balance - amount);
                Ok(())
            },
        }
    }

    /// Supplies the pool with the funds, which must be exactly one coin of
    /// a pooled asset; its amount is added to that asset's balance.
    pub fn supply(&mut self, funds: &Vec<Coin>) -> (r: Result<(), ContractError>)
        requires
            old(self).wf(),
        ensures
            final(self).wf(),
            match r {
                Ok(_) => old(self)@.try_supply(coins_of(funds@)) == Ok::<
                    PoolView,
                    ContractErrorView,
                >(final(self)@),
                Err(e) => old(self)@.try_supply(coins_of(funds@)) == Err::<
                    PoolView,
                    ContractErrorView,
                >(e@) && *final(self) == *old(self),
            },
    {
        if funds.len() != 1 {
            return Err(ContractError::Std { msg: SUPPLY_NEEDS_ONE_DENOM.to_owned() });
        }
        self.credit(funds[0].denom.as_str(), funds[0].amount)
    }

    /// Transmutes the funds, which must be exactly one coin of one asset of
    /// a pool of two: the pool keeps the coin and gives the same amount of
    /// the other asset, of which it must hold that much.
    pub fn transmute(&mut self, funds: &Vec<Coin>) -> (r: Result<Coin, ContractError>)
        requires
            old(self).wf(),
        ensures
            final(self).wf(),
            match r {
                Ok(coin) => old(self)@.try_transmute(coins_of(funds@)) == Ok::<
                    (PoolView, CoinView),
                    ContractErrorView,
                >((final(self)@, coin@)),
                Err(e) => old(self)@.try_transmute(coins_of(funds@)) == Err::<
                    (PoolView, CoinView),
                    ContractErrorView,
                >(e@) && *final(self) == *old(self),
            },
    {
        if funds.len() != 1 {
            return Err(ContractError::SingleCoinExpected);
        }
        let n = self.assets.len();
        if n != 2 {
            return Err(ContractError::NotTwoAssetPool { assets: n as u64 });
        }
        let coin = &funds[0];
        match self.assets.position(coin.denom.as_str()) {
            None => Err(ContractError::InvalidPoolAssetDenom { denom: coin.denom.clone() }),
            Some(i) => {
                let other = 1 - i;
                let counterpart = self.assets.key_at(other).clone();
                proof {
                    self.lemma_at(i as int);
                    self.lemma_at(other as int);
                }
                let held = self.assets.value_at(i).balance;
                let available = self.assets.value_at(other).balance;
                if available < coin.amount {
                    return Err(
                        ContractError::InsufficientPoolAsset {
                            denom: counterpart,
                            required: coin.amount,
                            available,
                        },
                    );
                }
                if coin.amount > u128::MAX - held {
                    return Err(ContractError::AmountOverflow);
                }
                proof {
                    self@.lemma_with_balance(counterpart@, (available - coin.amount) as u128);
                }
                self.set_balance_at(other, available - coin.amount);
                proof {
                    self.lemma_at(i as int);
                }
                self.set_balance_at(i, held + coin.amount);
                Ok(Coin { denom: counterpart, amount: coin.amount })
            },
        }
    }

    /// The weight of each pooled asset, in the order of the denominations,
    /// or `None` where the pool is empty and no asset has a weight. It
    /// fails where the total is more than can be held.
    pub fn weights(&self) -> (r: Result<Option<Vec<(String, Decimal)>>, ContractError>)
        requires
            self.wf(),
        ensures
            match r {
                Ok(Some(w)) => self@.try_weights() == Ok::<
                    Option<Seq<(Seq<char>, Decimal)>>,
                    ContractErrorView,
                >(Some(pairs_of(w@))),
                Ok(None) => self@.try_weights() == Ok::<
                    Option<Seq<(Seq<char>, Decimal)>>,
                    ContractErrorView,
                >(None),
                Err(e) => self@.try_weights() == Err::<
                    Option<Seq<(Seq<char>, Decimal)>>,
                    ContractErrorView,
                >(e@),
            },
    {
        let total = match self.total() {
            Some(total) => total,
            None => {
                return Err(ContractError::AmountOverflow);
            },
        };
        if total == 0 {
            return Ok(None);
        }
        let ghost balances = balances_of(self.assets.values());
        let mut pairs: Vec<(String, Decimal)> = Vec::new();
        let mut i: usize = 0;
        while i < self.assets.len()
            invariant
                self.wf(),
                0 < total == self@.total(),
                balances == balances_of(self.assets.values()),
                i <= self@.denoms.len(),
                pairs@.len() == i,
                forall|j: int| 0 <= j < i ==> (#[trigger] pairs_of(pairs@)[j]) == self@.weights()[j],
            decreases self@.denoms.len() - i,
        {
            let balance = self.assets.value_at(i).balance;
            proof {
                lemma_sum_bounds(balances, i as int);
            }
            let w = match weight(balance, total) {
                Some(w) => w,
                None => Decimal::zero(),
            };
            let ghost before = pairs@;
            pairs.push((self.assets.key_at(i).clone(), w));
            proof {
                assert forall|j: int| 0 <= j < i + 1 implies (#[trigger] pairs_of(pairs@)[j])
                    == self@.weights()[j] by {
                    if j < i {
                        assert(pairs_of(before)[j] == self@.weights()[j]);
                    }
                }
            }
            i += 1;
        }
        proof {
            assert(pairs_of(pairs@) =~= self@.weights());
        }
        Ok(Some(pairs))
    }

    /// The balance of each pooled asset as a coin, in the order of the
    /// denominations.
    pub fn pool_assets(&self) -> (r: Vec<Coin>)
        requires
            self.wf(),
        ensures
            r@.len() == self@.denoms.len(),
            forall|i: int|
                0 <= i < r@.len() ==> (#[trigger] r@[i])@ == (CoinView {
                    denom: self@.denoms[i],
                    amount: self@.assets[i].balance,
                }),
    {
        let mut coins: Vec<Coin> = Vec::new();
        let mut i: usize = 0;
        while i < self.assets.len()
            invariant
                self.wf(),
                i <= self@.denoms.len(),
                coins@.len() == i,
                forall|j: int|
                    0 <= j < i ==> (#[trigger] coins@[j])@ == (CoinView {
                        denom: self@.denoms[j],
                        amount: self@.assets[j].balance,
                    }),
            decreases self@.denoms.len() - i,
        {
            coins.push(
                Coin {
                    denom: self.assets.key_at(i).clone(),
                    amount: self.assets.value_at(i).balance,
                },
            );
            i += 1;
        }
        coins
    }

    /// A pool of its own that holds what this one holds.
    pub fn snapshot(&self) -> (pool: Self)
        requires
            self.wf(),
        ensures
            pool.wf(),
            pool@ == self@,
    {
        TransmuterPool {
            assets: self.assets.snapshot(),
            alloyed_denom: self.alloyed_denom.clone(),
        }
    }

    /// Sets the corruption mark of a pooled asset.
    fn set_mark(&mut self, denom: &str, mark: bool) -> (r: Result<(), ContractError>)
        requires
            old(self).wf(),
        ensures
            final(self).wf(),
            match r {
                Ok(_) => {
                    &&& old(self)@.has(denom@)
                    &&& final(self)@ == old(self)@.with_mark(denom@, mark)
                },
                Err(e) => {
                    &&& !old(self)@.has(denom@)
                    &&& e@ == (ContractErrorView::InvalidPoolAssetDenom { denom: denom@ })
                    &&& *final(self) == *old(self)
                },
            },
    {
        match self.assets.position(denom) {
            None => Err(ContractError::InvalidPoolAssetDenom { denom: denom.to_owned() }),
            Some(i) => {
                proof {
                    self.lemma_at(i as int);
                }
                let asset = *self.assets.value_at(i);
                self.assets.set_value_at(i, PooledAsset { balance: asset.balance, is_corrupted: mark });
                proof {
                    assert(balances_of(self.assets.values()) =~= balances_of(
                        old(self).assets.values(),
                    ));
                }
                Ok(())
            },
        }
    }

    /// Marks a pooled asset as corrupted; its balance stays.
    pub fn mark_corrupted_asset(&mut self, denom: &str) -> (r: Result<(), ContractError>)
        requires
            old(self).wf(),
        ensures
            final(self).wf(),
            match r {
                Ok(_) => {
                    &&& old(self)@.has(denom@)
                    &&& final(self)@ == old(self)@.with_mark(denom@, true)
                },
                Err(e) => {
                    &&& !old(self)@.has(denom@)
                    &&& e@ == (ContractErrorView::InvalidPoolAssetDenom { denom: denom@ })
                    &&& *final(self) == *old(self)
                },
            },
    {
        self.set_mark(denom, true)
    }

    /// Takes the corruption mark off a pooled asset; its balance stays.
    pub fn unmark_corrupted_asset(&mut self, denom: &str) -> (r: Result<(), ContractError>)
        requires
            old(self).wf(),
        ensures
            final(self).wf(),
            match r {
                Ok(_) => {
                    &&& old(self)@.has(denom@)
                    &&& final(self)@ == old(self)@.with_mark(denom@, false)
                },
                Err(e) => {
                    &&& !old(self)@.has(denom@)
                    &&& e@ == (ContractErrorView::InvalidPoolAssetDenom { denom: denom@ })
                    &&& *final(self) == *old(self)
                },
            },
    {
        self.set_mark(denom, false)
    }
}

} // verus!
