//! Asset groups: named lists of denominations, each with its own corruption
//! mark, and the registry that keeps them by label.

use crate::corruptable::Corruptable;
use crate::error::{ContractError, ContractErrorView};
use crate::label::strictly_increasing;
use crate::table::{labels_of, OrderedTable};
use vstd::prelude::*;

verus! {

/// A list of denominations with a corruption mark. The list keeps the order
/// in which denominations were added and may name one more than once.
#[derive(Clone, Debug, PartialEq, Eq)]
pub struct AssetGroup {
    denoms: Vec<String>,
    is_corrupted: bool,
}

/// What an asset group holds.
pub ghost struct AssetGroupView {
    pub denoms: Seq<Seq<char>>,
    pub is_corrupted: bool,
}

/// The list `denoms` without every occurrence of each member of `removed`.
pub open spec fn without(denoms: Seq<Seq<char>>, removed: Seq<Seq<char>>) -> Seq<Seq<char>> {
    denoms.filter(|d: Seq<char>| !removed.contains(d))
}

impl AssetGroupView {
    /// The group with its mark set to `mark`.
    pub open spec fn with_mark(self, mark: bool) -> AssetGroupView {
        AssetGroupView { denoms: self.denoms, is_corrupted: mark }
    }

    /// The group with `added` appended to its list.
    pub open spec fn with_added(self, added: Seq<Seq<char>>) -> AssetGroupView {
        AssetGroupView { denoms: self.denoms + added, is_corrupted: self.is_corrupted }
    }

    /// The group without every occurrence of each member of `removed`.
    pub open spec fn with_removed(self, removed: Seq<Seq<char>>) -> AssetGroupView {
        AssetGroupView { denoms: without(self.denoms, removed), is_corrupted: self.is_corrupted }
    }
}

impl View for AssetGroup {
    type V = AssetGroupView;

    closed spec fn view(&self) -> AssetGroupView {
        AssetGroupView { denoms: labels_of(self.denoms@), is_corrupted: self.is_corrupted }
    }
}

/// Whether `list` names `denom`.
fn names(list: &Vec<String>, denom: &String) -> (b: bool)
    ensures
        b == labels_of(list@).contains(denom@),
{
    let mut i: usize = 0;
    while i < list.len()
        invariant
            i <= list@.len(),
            forall|j: int| 0 <= j < i ==> labels_of(list@)[j] != denom@,
        decreases list@.len() - i,
    {
        if list[i] == *denom {
            assert(labels_of(list@)[i as int] == denom@);
            return true;
        }
        i += 1;
    }
    false
}

impl AssetGroup {
    /// A group of the given denominations, not corrupted.
    pub fn new(denoms: Vec<String>) -> (g: Self)
        ensures
            g@ == (AssetGroupView { denoms: labels_of(denoms@), is_corrupted: false }),
    {
        Self { denoms, is_corrupted: false }
    }

    /// The denominations, in order.
    pub fn denoms(&self) -> (r: &[String])
        ensures
            labels_of(r@) == self@.denoms,
    {
        self.denoms.as_slice()
    }

    /// Whether the group names the denomination.
    pub fn has_denom(&self, denom: &String) -> (b: bool)
        ensures
            b == self@.denoms.contains(denom@),
    {
        names(&self.denoms, denom)
    }

    /// The denominations, in order, giving up the group.
    pub fn into_denoms(self) -> (r: Vec<String>)
        ensures
            labels_of(r@) == self@.denoms,
    {
        self.denoms
    }

    /// Appends the denominations, those that the group names already too.
    pub fn add_denoms(&mut self, denoms: Vec<String>) -> (r: &mut Self)
        ensures
            r@ == old(self)@.with_added(labels_of(denoms@)),
            *final(self) == *final(r),
    {
        let mut added = denoms;
        self.denoms.append(&mut added);
        proof {
            assert(labels_of(self.denoms@) =~= old(self)@.denoms + labels_of(denoms@));
        }
        self
    }

    /// Removes every occurrence of each of the denominations; the others
    /// keep their order.
    pub fn remove_denoms(&mut self, denoms: Vec<String>) -> (r: &mut Self)
        ensures
            r@ == old(self)@.with_removed(labels_of(denoms@)),
            *final(self) == *final(r),
    {
        let ghost all = labels_of(self.denoms@);
        let ghost removed = labels_of(denoms@);
        let ghost keep = |d: Seq<char>| !removed.contains(d);
        let mut kept: Vec<String> = Vec::new();
        let mut i: usize = 0;
        proof {
            assert(all.take(0) =~= Seq::<Seq<char>>::empty());
            assert(labels_of(kept@) =~= all.take(0).filter(keep));
        }
        while i < self.denoms.len()
            invariant
                i <= self.denoms@.len(),
                *self == *old(self),
                all == labels_of(self.denoms@),
                removed == labels_of(denoms@),
                keep == |d: Seq<char>| !removed.contains(d),
                labels_of(kept@) == all.take(i as int).filter(keep),
            decreases self.denoms@.len() - i,
        {
            proof {
                reveal(Seq::filter);
                assert(all.take(i + 1).drop_last() =~= all.take(i as int));
            }
            if !names(&denoms, &self.denoms[i]) {
                let ghost before = labels_of(kept@);
                kept.push(self.denoms[i].clone());
                proof {
                    assert(labels_of(kept@) =~= before.push(all[i as int]));
                }
            }
            i += 1;
        }
        proof {
            assert(all.take(i as int) =~= all);
        }
        self.denoms = kept;
        self
    }
}

impl Corruptable for AssetGroup {
    open spec fn corrupted(&self) -> bool {
        self@.is_corrupted
    }

    open spec fn same_but_for_mark(&self, other: &Self) -> bool {
        self@.denoms == other@.denoms
    }

    fn is_corrupted(&self) -> (b: bool)
        ensures
            b == self@.is_corrupted,
    {
        self.is_corrupted
    }

    fn mark_as_corrupted(&mut self) -> (r: &mut Self)
        ensures
            r@ == old(self)@.with_mark(true),
    {
        self.is_corrupted = true;
        self
    }

    fn unmark_as_corrupted(&mut self) -> (r: &mut Self)
        ensures
            r@ == old(self)@.with_mark(false),
    {
        self.is_corrupted = false;
        self
    }
}

/// The registry of asset groups: at most one group under each label, kept in
/// label order.
#[derive(Clone, Debug, PartialEq, Eq)]
pub struct AssetGroups(OrderedTable<AssetGroup>);

/// What a registry holds: the group under each label.
pub type Registry = Map<Seq<char>, AssetGroupView>;

/// The registry after a group of `denoms` was created under `label`, or
/// `None` where the label is taken.
pub open spec fn created(groups: Registry, label: Seq<char>, denoms: Seq<Seq<char>>) -> Option<
    Registry,
> {
    if groups.contains_key(label) {
        None
    } else {
        Some(groups.insert(label, AssetGroupView { denoms, is_corrupted: false }))
    }
}

/// The registry after the group under `label` was removed, or `None` where
/// there is no such group.
pub open spec fn removed(groups: Registry, label: Seq<char>) -> Option<Registry> {
    if groups.contains_key(label) {
        Some(groups.remove(label))
    } else {
        None
    }
}

/// The registry after the mark of the group under `label` was set to
/// `mark`, or `None` where there is no such group.
pub open spec fn marked(groups: Registry, label: Seq<char>, mark: bool) -> Option<Registry> {
    if groups.contains_key(label) {
        Some(groups.insert(label, groups[label].with_mark(mark)))
    } else {
        None
    }
}

impl View for AssetGroups {
    type V = Registry;

    closed spec fn view(&self) -> Registry {
        self.0.map().map_values(|g: AssetGroup| g@)
    }
}

impl AssetGroups {
    /// The labels strictly increase in the order in which the registry is walked.
    pub closed spec fn wf(&self) -> bool {
        self.0.wf()
    }

    /// The labels, in the order in which the registry is walked.
    pub closed spec fn labels(&self) -> Seq<Seq<char>> {
        self.0.keys()
    }

    /// The registry without groups.
    pub fn new() -> (r: Self)
        ensures
            r.wf(),
            r@ == Map::<Seq<char>, AssetGroupView>::empty(),
            r.labels() == Seq::<Seq<char>>::empty(),
    {
        let r = AssetGroups(OrderedTable::new());
        proof {
            assert(r@ =~= Map::<Seq<char>, AssetGroupView>::empty());
        }
        r
    }

    /// The number of groups.
    pub fn len(&self) -> (n: usize)
        requires
            self.wf(),
        ensures
            n == self.labels().len(),
    {
        self.0.len()
    }

    /// The label at an index of the order in which the registry is walked.
    pub fn label_at(&self, i: usize) -> (label: &String)
        requires
            self.wf(),
            i < self.labels().len(),
        ensures
            label@ == self.labels()[i as int],
            self@.contains_key(label@),
    {
        proof {
            self.0.lemma_value_at(i as int);
        }
        self.0.key_at(i)
    }

    /// The group at an index of the order in which the registry is walked.
    pub fn group_at(&self, i: usize) -> (group: &AssetGroup)
        requires
            self.wf(),
            i < self.labels().len(),
        ensures
            self@.contains_key(self.labels()[i as int]),
            group@ == self@[self.labels()[i as int]],
    {
        proof {
            self.0.lemma_value_at(i as int);
        }
        self.0.value_at(i)
    }

    /// The labels are those under which a group is registered, each once
    /// and in label order.
    pub proof fn lemma_labels(&self)
        requires
            self.wf(),
        ensures
            strictly_increasing(self.labels()),
            forall|label: Seq<char>| self@.contains_key(label) <==> self.labels().contains(label),
    {
    }

    /// Whether a group is registered under the label.
    pub fn has(&self, label: &str) -> (b: bool)
        requires
            self.wf(),
        ensures
            b == self@.contains_key(label@),
    {
        self.0.position(label).is_some()
    }

    /// Marks the group under `label` as corrupted.
    pub fn mark_corrupted_asset_group(&mut self, label: &str) -> (r: Result<
        &mut Self,
        ContractError,
    >)
        requires
            old(self).wf(),
        ensures
            match r {
                Ok(g) => {
                    &&& marked(old(self)@, label@, true) == Some(g@)
                    &&& g.wf()
                    &&& g.labels() == old(self).labels()
                    &&& *final(self) == *final(g)
                },
                Err(e) => {
                    &&& marked(old(self)@, label@, true) is None
                    &&& e@ == (ContractErrorView::AssetGroupNotFound { label: label@ })
                    &&& *final(self) == *old(self)
                },
            },
    {
        match self.0.position(label) {
            Some(i) => {
                self.0.value_at_mut(i).mark_as_corrupted();
                proof {
                    old(self).0.lemma_value_replaced(&self.0, i as int);
                    assert(self@ =~= marked(old(self)@, label@, true).unwrap());
                }
                Ok(self)
            },
            None => Err(ContractError::AssetGroupNotFound { label: label.to_owned() }),
        }
    }

    /// Takes the corruption mark off the group under `label`.
    pub fn unmark_corrupted_asset_group(&mut self, label: &str) -> (r: Result<
        &mut Self,
        ContractError,
    >)
        requires
            old(self).wf(),
        ensures
            match r {
                Ok(g) => {
                    &&& marked(old(self)@, label@, false) == Some(g@)
                    &&& g.wf()
                    &&& g.labels() == old(self).labels()
                    &&& *final(self) == *final(g)
                },
                Err(e) => {
                    &&& marked(old(self)@, label@, false) is None
                    &&& e@ == (ContractErrorView::AssetGroupNotFound { label: label@ })
                    &&& *final(self) == *old(self)
                },
            },
    {
        match self.0.position(label) {
            Some(i) => {
                self.0.value_at_mut(i).unmark_as_corrupted();
                proof {
                    old(self).0.lemma_value_replaced(&self.0, i as int);
                    assert(self@ =~= marked(old(self)@, label@, false).unwrap());
                }
                Ok(self)
            },
            None => Err(ContractError::AssetGroupNotFound { label: label.to_owned() }),
        }
    }

    /// Registers a fresh, uncorrupted group of `denoms` under `label`. The
    /// list is taken as it is: nothing is dropped from it or checked.
    pub fn create_asset_group(&mut self, label: String, denoms: Vec<String>) -> (r: Result<
        &mut Self,
        ContractError,
    >)
        requires
            old(self).wf(),
        ensures
            match r {
                Ok(g) => {
                    &&& created(old(self)@, label@, labels_of(denoms@)) == Some(g@)
                    &&& g.wf()
                    &&& *final(self) == *final(g)
                },
                Err(e) => {
                    &&& created(old(self)@, label@, labels_of(denoms@)) is None
                    &&& e@ == (ContractErrorView::AssetGroupAlreadyExists { label: label@ })
                    &&& *final(self) == *old(self)
                },
            },
    {
        if self.0.position(label.as_str()).is_some() {
            return Err(ContractError::AssetGroupAlreadyExists { label });
        }
        let _ = self.0.insert_new(label, AssetGroup::new(denoms));
        proof {
            assert(self@ =~= created(old(self)@, label@, labels_of(denoms@)).unwrap());
        }
        Ok(self)
    }

    /// Removes the group under `label`.
    pub fn remove_asset_group(&mut self, label: &str) -> (r: Result<&mut Self, ContractError>)
        requires
            old(self).wf(),
        ensures
            match r {
                Ok(g) => {
                    &&& removed(old(self)@, label@) == Some(g@)
                    &&& g.wf()
                    &&& *final(self) == *final(g)
                },
                Err(e) => {
                    &&& removed(old(self)@, label@) is None
                    &&& e@ == (ContractErrorView::AssetGroupNotFound { label: label@ })
                    &&& *final(self) == *old(self)
                },
            },
    {
        match self.0.position(label) {
            Some(i) => {
                let _ = self.0.remove_at(i);
                proof {
                    assert(self@ =~= removed(old(self)@, label@).unwrap());
                }
                Ok(self)
            },
            None => Err(ContractError::AssetGroupNotFound { label: label.to_owned() }),
        }
    }

    /// The groups with their labels, in label order, giving up the registry.
    pub fn into_inner(self) -> (r: Vec<(String, AssetGroup)>)
        requires
            self.wf(),
        ensures
            r@.len() == self.labels().len(),
            forall|i: int|
                0 <= i < r@.len() ==> (#[trigger] r@[i]).0@ == self.labels()[i] && r@[i].1@
                    == self@[self.labels()[i]],
            forall|label: Seq<char>| self@.contains_key(label) <==> self.labels().contains(label),
            strictly_increasing(self.labels()),
    {
        proof {
            assert forall|i: int| 0 <= i < self.0.keys().len() implies #[trigger] self.0.values()[i]@
                == self@[self.0.keys()[i]] by {
                self.0.lemma_value_at(i);
            }
        }
        self.0.into_entries()
    }
}

impl Default for AssetGroups {
    fn default() -> (r: Self)
        ensures
            r.wf(),
            r@ == Map::<Seq<char>, AssetGroupView>::empty(),
            r.labels() == Seq::<Seq<char>>::empty(),
    {
        AssetGroups::new()
    }
}

/// Creating a group under a label twice, with nothing removed in between,
/// is refused the second time.
pub proof fn lemma_create_twice_refused(
    groups: Registry,
    label: Seq<char>,
    first: Seq<Seq<char>>,
    second: Seq<Seq<char>>,
)
    requires
        created(groups, label, first) is Some,
    ensures
        created(created(groups, label, first).unwrap(), label, second) is None,
{
}

/// Once the group under a label is removed, a group can be created under
/// that label again, and it is the group that the registry then holds there.
pub proof fn lemma_remove_then_create(groups: Registry, label: Seq<char>, denoms: Seq<Seq<char>>)
    requires
        groups.contains_key(label),
    ensures
        removed(groups, label) is Some,
        created(removed(groups, label).unwrap(), label, denoms) is Some,
        created(removed(groups, label).unwrap(), label, denoms).unwrap() == groups.insert(
            label,
            AssetGroupView { denoms, is_corrupted: false },
        ),
{
    assert(groups.remove(label).insert(label, AssetGroupView { denoms, is_corrupted: false })
        =~= groups.insert(label, AssetGroupView { denoms, is_corrupted: false }));
}

/// Removing denominations that a list does not name leaves the list as it
/// is, order included.
pub proof fn lemma_remove_absent(denoms: Seq<Seq<char>>, removed: Seq<Seq<char>>)
    requires
        forall|d: Seq<char>| removed.contains(d) ==> !denoms.contains(d),
    ensures
        without(denoms, removed) == denoms,
    decreases denoms.len(),
{
    reveal(Seq::filter);
    if denoms.len() > 0 {
        let init = denoms.drop_last();
        assert forall|d: Seq<char>| removed.contains(d) implies !init.contains(d) by {
            if init.contains(d) {
                let i = init.index_of(d);
                assert(denoms[i] == d);
            }
        }
        lemma_remove_absent(init, removed);
        assert(denoms.contains(denoms.last()));
        assert(init.push(denoms.last()) =~= denoms);
    } else {
        assert(without(denoms, removed) =~= denoms);
    }
}

/// Adding denominations and then removing others, none of which the group
/// names after the addition, removes nothing.
pub proof fn lemma_add_then_remove_disjoint(
    group: AssetGroupView,
    added: Seq<Seq<char>>,
    removed: Seq<Seq<char>>,
)
    requires
        forall|d: Seq<char>| removed.contains(d) ==> !group.denoms.contains(d) && !added.contains(d),
    ensures
        group.with_added(added).with_removed(removed) == group.with_added(added),
{
    let all = group.denoms + added;
    assert forall|d: Seq<char>| removed.contains(d) implies !all.contains(d) by {
        if all.contains(d) {
            let i = all.index_of(d);
            if i < group.denoms.len() {
                assert(group.denoms[i] == d);
            } else {
                assert(added[i - group.denoms.len()] == d);
            }
        }
    }
    lemma_remove_absent(all, removed);
}

/// What is left after a removal is what the list named before, in the same
/// order, but for the removed denominations: every other entry stays.
pub proof fn lemma_remove_keeps_others(denoms: Seq<Seq<char>>, removed: Seq<Seq<char>>, d: Seq<char>)
    ensures
        without(denoms, removed).contains(d) <==> denoms.contains(d) && !removed.contains(d),
        !removed.contains(d) ==> without(denoms, removed).filter(|x: Seq<char>| x == d)
            == denoms.filter(|x: Seq<char>| x == d),
    decreases denoms.len(),
{
    reveal(Seq::filter);
    let keep = |x: Seq<char>| !removed.contains(x);
    let is_d = |x: Seq<char>| x == d;
    if denoms.len() > 0 {
        let init = denoms.drop_last();
        let last = denoms.last();
        lemma_remove_keeps_others(init, removed, d);
        assert(init.push(last) =~= denoms);
        let kept = without(init, removed);
        if without(denoms, removed).contains(d) {
            let i = without(denoms, removed).index_of(d);
            if i < kept.len() {
                assert(kept[i] == d);
                let j = init.index_of(d);
                assert(denoms[j] == d);
            } else {
                assert(denoms[denoms.len() - 1] == d);
            }
        }
        if denoms.contains(d) && !removed.contains(d) {
            let j = denoms.index_of(d);
            if j < init.len() {
                assert(init[j] == d);
                let i = kept.index_of(d);
                assert(without(denoms, removed)[i] == d);
            } else {
                assert(without(denoms, removed).last() == d);
            }
        }
        if !removed.contains(d) {
            if keep(last) {
                assert(without(denoms, removed) == kept.push(last));
                assert(kept.push(last).drop_last() =~= kept);
            }
        }
    } else {
        assert(without(denoms, removed) =~= denoms);
    }
}

/// Marking twice is marking once, and unmarking after marking leaves the
/// entity unmarked with the rest as it was.
pub proof fn lemma_mark_idempotent(group: AssetGroupView)
    ensures
        group.with_mark(true).with_mark(true) == group.with_mark(true),
        group.with_mark(true).with_mark(true).is_corrupted,
        !group.with_mark(true).with_mark(false).is_corrupted,
        group.with_mark(true).with_mark(false) == group.with_mark(false),
        !group.is_corrupted ==> group.with_mark(true).with_mark(false) == group,
{
}

/// The same for a group in the registry: marking it twice is marking it
/// once, and unmarking it afterwards leaves it unmarked.
pub proof fn lemma_registry_mark_idempotent(groups: Registry, label: Seq<char>)
    requires
        groups.contains_key(label),
    ensures
        marked(groups, label, true) is Some,
        marked(marked(groups, label, true).unwrap(), label, true) == marked(groups, label, true),
        marked(marked(groups, label, true).unwrap(), label, false) == marked(groups, label, false),
        marked(groups, label, true).unwrap()[label].is_corrupted,
        !marked(groups, label, false).unwrap()[label].is_corrupted,
{
    let once = groups.insert(label, groups[label].with_mark(true));
    assert(once.insert(label, once[label].with_mark(true)) =~= once);
    assert(once.insert(label, once[label].with_mark(false)) =~= groups.insert(
        label,
        groups[label].with_mark(false),
    ));
}

} // verus!
