//! What the rate limiter tracks: the weight of a pooled asset, or the
//! weight of an asset group, each under a key of its own, and the batch of
//! weights that a change of the pool submits to the limiter.

use crate::asset_group::{AssetGroup, AssetGroupView, AssetGroups, Registry};
use crate::error::{ContractError, ContractErrorView};
use crate::corruptable::Corruptable;
use crate::math::{lemma_sum_bounds, share_of, sum_of, weight, Decimal};
use crate::transmuter_pool::{balances_of, pairs_of, PoolView, TransmuterPool};
use vstd::prelude::*;
use vstd::string::StringExecFns;

verus! {

/// What a limiter tracks.
#[derive(Clone, Debug, PartialEq, Eq)]
pub enum Scope {
    /// The weight of the pooled asset of this denomination.
    Denom(String),
    /// The weight of the asset group under this label.
    AssetGroup(String),
}

/// The key under which the weight of a pooled asset is tracked.
pub open spec fn denom_key(denom: Seq<char>) -> Seq<char> {
    "denom::"@ + denom
}

/// The key under which the weight of an asset group is tracked.
pub open spec fn group_key(label: Seq<char>) -> Seq<char> {
    "asset_group::"@ + label
}

impl Scope {
    /// The key of the scope.
    pub open spec fn key_spec(&self) -> Seq<char> {
        match *self {
            Scope::Denom(denom) => denom_key(denom@),
            Scope::AssetGroup(label) => group_key(label@),
        }
    }

    /// The key under which the limiter tracks the scope.
    pub fn key(&self) -> (key: String)
        ensures
            key@ == self.key_spec(),
    {
        match self {
            Scope::Denom(denom) => String::from_str("denom::").concat(denom.as_str()),
            Scope::AssetGroup(label) => String::from_str("asset_group::").concat(label.as_str()),
        }
    }
}

/// The share of `amount` in `total` as a weight.
pub open spec fn weight_of(amount: int, total: int) -> Decimal {
    Decimal { atomics: share_of(amount as u128, total as u128) as u128 }
}

/// Whether the weight of the asset at index `i` is kept from the limiter:
/// the asset is marked as corrupted and the pool holds less of it than
/// before, so that what leaves of a corrupted asset is not held back.
pub open spec fn asset_exempt(before: PoolView, after: PoolView, i: int) -> bool {
    &&& after.assets[i].is_corrupted
    &&& before.has(after.denoms[i])
    &&& after.assets[i].balance < before.balance_of(after.denoms[i])
}

/// The weights of the first `n` pooled assets after a change, each under
/// the key of its denomination, without the exempt ones.
pub open spec fn asset_pairs(before: PoolView, after: PoolView, n: int) -> Seq<
    (Seq<char>, Decimal),
>
    decreases n,
{
    if n <= 0 {
        Seq::empty()
    } else if asset_exempt(before, after, n - 1) {
        asset_pairs(before, after, n - 1)
    } else {
        asset_pairs(before, after, n - 1).push(
            (
                denom_key(after.denoms[n - 1]),
                weight_of(after.assets[n - 1].balance as int, after.total()),
            ),
        )
    }
}

/// What the pool holds of the denominations that a group names, among the
/// first `n` pooled assets. A denomination counts once however often the
/// group names it.
pub open spec fn group_balance(pool: PoolView, group: AssetGroupView, n: int) -> int
    decreases n,
{
    if n <= 0 {
        0
    } else if group.denoms.contains(pool.denoms[n - 1]) {
        group_balance(pool, group, n - 1) + pool.assets[n - 1].balance
    } else {
        group_balance(pool, group, n - 1)
    }
}

/// Whether the weight of a group is kept from the limiter: the group is
/// marked as corrupted and the pool holds less of it than before.
pub open spec fn group_exempt(before: PoolView, after: PoolView, group: AssetGroupView) -> bool {
    group.is_corrupted && group_balance(after, group, after.denoms.len() as int) < group_balance(
        before,
        group,
        before.denoms.len() as int,
    )
}

/// The weights of the first `n` groups after a change, each under the key
/// of its label, without the exempt ones.
pub open spec fn group_pairs(
    before: PoolView,
    after: PoolView,
    groups: Registry,
    labels: Seq<Seq<char>>,
    n: int,
) -> Seq<(Seq<char>, Decimal)>
    decreases n,
{
    if n <= 0 {
        Seq::empty()
    } else if group_exempt(before, after, groups[labels[n - 1]]) {
        group_pairs(before, after, groups, labels, n - 1)
    } else {
        group_pairs(before, after, groups, labels, n - 1).push(
            (
                group_key(labels[n - 1]),
                weight_of(
                    group_balance(after, groups[labels[n - 1]], after.denoms.len() as int),
                    after.total(),
                ),
            ),
        )
    }
}

/// The batch that a change of the pool from `before` to `after` submits to
/// the limiter: the weights of the pooled assets in the order of their
/// denominations, then those of the groups in the order of their labels.
pub open spec fn limiter_batch(
    before: PoolView,
    after: PoolView,
    groups: Registry,
    labels: Seq<Seq<char>>,
) -> Seq<(Seq<char>, Decimal)> {
    asset_pairs(before, after, after.denoms.len() as int) + group_pairs(
        before,
        after,
        groups,
        labels,
        labels.len() as int,
    )
}

/// What a pool holds of a group is part of its total.
pub proof fn lemma_group_balance_bounds(pool: PoolView, group: AssetGroupView, n: int)
    requires
        pool.denoms.len() == pool.assets.len(),
        0 <= n <= pool.denoms.len(),
    ensures
        0 <= group_balance(pool, group, n) <= sum_of(balances_of(pool.assets).take(n)),
        group_balance(pool, group, n) <= pool.total(),
        group_balance(pool, group, n) <= group_balance(pool, group, pool.denoms.len() as int),
    decreases pool.denoms.len() - n,
{
    lemma_group_balance_part(pool, group, n);
    lemma_sum_bounds(balances_of(pool.assets), n);
    if n < pool.denoms.len() {
        lemma_group_balance_bounds(pool, group, n + 1);
    }
}

/// What a pool holds of a group among its first `n` assets is part of the
/// sum of their balances.
proof fn lemma_group_balance_part(pool: PoolView, group: AssetGroupView, n: int)
    requires
        pool.denoms.len() == pool.assets.len(),
        0 <= n <= pool.denoms.len(),
    ensures
        0 <= group_balance(pool, group, n) <= sum_of(balances_of(pool.assets).take(n)),
    decreases n,
{
    if n > 0 {
        lemma_group_balance_part(pool, group, n - 1);
        lemma_sum_bounds(balances_of(pool.assets), n - 1);
    } else {
        assert(balances_of(pool.assets).take(0) =~= Seq::<u128>::empty());
    }
}

/// What the pool holds of the denominations that the group names, or
/// `None` where that is more than can be held.
pub fn group_balance_of(pool: &TransmuterPool, group: &AssetGroup) -> (r: Option<u128>)
    requires
        pool.wf(),
    ensures
        match r {
            Some(held) => held == group_balance(pool@, group@, pool@.denoms.len() as int),
            None => group_balance(pool@, group@, pool@.denoms.len() as int) > u128::MAX,
        },
        pool@.total() <= u128::MAX ==> r is Some,
{
    let mut held: u128 = 0;
    let mut i: usize = 0;
    while i < pool.len()
        invariant
            pool.wf(),
            i <= pool@.denoms.len(),
            held == group_balance(pool@, group@, i as int),
        decreases pool@.denoms.len() - i,
    {
        proof {
            lemma_group_balance_bounds(pool@, group@, i + 1);
        }
        if group.has_denom(pool.denom_at(i)) {
            let balance = pool.asset_at(i).balance;
            if balance > u128::MAX - held {
                return None;
            }
            held = held + balance;
        }
        i += 1;
    }
    proof {
        lemma_group_balance_bounds(pool@, group@, i as int);
    }
    Some(held)
}

/// The batch of the change from `before` to `after`: none where the pool
/// is empty after the change and nothing has a weight, and a failure where
/// the total after the change is more than can be held.
pub open spec fn try_limiter_batch(
    before: PoolView,
    after: PoolView,
    groups: Registry,
    labels: Seq<Seq<char>>,
) -> Result<Option<Seq<(Seq<char>, Decimal)>>, ContractErrorView> {
    if after.total() > u128::MAX {
        Err(ContractErrorView::AmountOverflow)
    } else if after.total() == 0 {
        Ok(None)
    } else {
        Ok(Some(limiter_batch(before, after, groups, labels)))
    }
}

/// The batch that a change of the pool from `before` to `after` submits to
/// the limiter, or `None` where the pool is empty after the change and
/// nothing has a weight. It fails where the total after the change is more
/// than can be held.
pub fn limiter_batch_of(before: &TransmuterPool, after: &TransmuterPool, groups: &AssetGroups) -> (r:
    Result<Option<Vec<(String, Decimal)>>, ContractError>)
    requires
        before.wf(),
        after.wf(),
        groups.wf(),
    ensures
        match r {
            Ok(Some(batch)) => try_limiter_batch(before@, after@, groups@, groups.labels()) == Ok::<
                Option<Seq<(Seq<char>, Decimal)>>,
                ContractErrorView,
            >(Some(pairs_of(batch@))),
            Ok(None) => try_limiter_batch(before@, after@, groups@, groups.labels()) == Ok::<
                Option<Seq<(Seq<char>, Decimal)>>,
                ContractErrorView,
            >(None),
            Err(e) => try_limiter_batch(before@, after@, groups@, groups.labels()) == Err::<
                Option<Seq<(Seq<char>, Decimal)>>,
                ContractErrorView,
            >(e@),
        },
{
    let total = match after.total() {
        Some(total) => total,
        None => {
            return Err(ContractError::AmountOverflow);
        },
    };
    if total == 0 {
        return Ok(None);
    }
    let mut batch: Vec<(String, Decimal)> = Vec::new();
    let mut i: usize = 0;
    proof {
        assert(pairs_of(batch@) =~= asset_pairs(before@, after@, 0));
    }
    while i < after.len()
        invariant
            before.wf(),
            after.wf(),
            0 < total == after@.total(),
            i <= after@.denoms.len(),
            pairs_of(batch@) == asset_pairs(before@, after@, i as int),
        decreases after@.denoms.len() - i,
    {
        let asset = after.asset_at(i);
        let leaves = asset.is_corrupted && match before.asset(after.denom_at(i).as_str()) {
            Some(held) => asset.balance < held.balance,
            None => false,
        };
        if !leaves {
            proof {
                lemma_sum_bounds(balances_of(after@.assets), i as int);
            }
            let w = match weight(asset.balance, total) {
                Some(w) => w,
                None => Decimal::zero(),
            };
            let key = Scope::Denom(after.denom_at(i).clone()).key();
            let ghost seen = pairs_of(batch@);
            batch.push((key, w));
            proof {
                assert(pairs_of(batch@) =~= seen.push((key@, w)));
            }
        }
        i += 1;
    }
    let ghost assets = pairs_of(batch@);
    let n = after.len();
    let mut j: usize = 0;
    proof {
        assert(assets + group_pairs(before@, after@, groups@, groups.labels(), 0) =~= assets);
    }
    while j < groups.len()
        invariant
            before.wf(),
            after.wf(),
            groups.wf(),
            0 < total == after@.total(),
            n == after@.denoms.len(),
            j <= groups.labels().len(),
            assets == asset_pairs(before@, after@, n as int),
            pairs_of(batch@) == assets + group_pairs(
                before@,
                after@,
                groups@,
                groups.labels(),
                j as int,
            ),
        decreases groups.labels().len() - j,
    {
        let group = groups.group_at(j);
        let held = match group_balance_of(after, group) {
            Some(held) => held,
            None => 0,
        };
        let leaves = group.is_corrupted() && match group_balance_of(before, group) {
            Some(held_before) => held < held_before,
            None => true,
        };
        proof {
            lemma_group_balance_bounds(after@, group@, after@.denoms.len() as int);
        }
        if !leaves {
            let w = match weight(held, total) {
                Some(w) => w,
                None => Decimal::zero(),
            };
            let key = Scope::AssetGroup(groups.label_at(j).clone()).key();
            let ghost seen = pairs_of(batch@);
            batch.push((key, w));
            proof {
                assert(pairs_of(batch@) =~= seen.push((key@, w)));
                assert(seen.push((key@, w)) =~= assets + group_pairs(
                    before@,
                    after@,
                    groups@,
                    groups.labels(),
                    j as int,
                ).push((key@, w)));
            }
        }
        j += 1;
    }
    Ok(Some(batch))
}

} // verus!
