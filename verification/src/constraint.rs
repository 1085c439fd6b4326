//! Constraints: predicates on value tuples, each scheduled at the depth of
//! the last dimension it reads.

use core::marker::PhantomData;
use crate::schedule::ascending;
use vstd::prelude::*;

verus! {

/// A predicate on value tuples, scheduled at a dimension depth: it is
/// evaluated once the digits up to that depth are fixed.
#[derive(Debug, PartialEq)]
pub struct Constrain<K, I, F = fn(Vec<K>, &Option<I>) -> bool> where
    K: std::clone::Clone,
    I: std::clone::Clone,
    F: Fn(Vec<K>, &Option<I>) -> bool,
{
    /// The depth the predicate is scheduled at.
    pub index: usize,
    /// The predicate: it takes the value tuple and the reference value of
    /// its slot, if there is one.
    pub constrain: F,
    /// Ties the value and reference types to the constraint.
    pub types: PhantomData<(K, I)>,
}

impl<K, I, F> Constrain<K, I, F> where
    K: std::clone::Clone,
    I: std::clone::Clone,
    F: Fn(Vec<K>, &Option<I>) -> bool,
{
    /// The predicate can be evaluated on every tuple of `dimensions` values.
    pub open spec fn total(&self, dimensions: nat) -> bool {
        forall|tuple: Vec<K>, reference: Option<I>|
            tuple@.len() == dimensions ==> #[trigger] call_requires(
                self.constrain,
                (tuple, &reference),
            )
    }

    /// On tuples of `dimensions` values, the predicate's answer depends on
    /// the values of the tuple and on the reference value only.
    pub open spec fn deterministic(&self, dimensions: nat) -> bool {
        forall|one: Vec<K>, other: Vec<K>, reference: Option<I>, yes: bool, no: bool|
            one@.len() == dimensions && one@ == other@ && #[trigger] call_ensures(
                self.constrain,
                (one, &reference),
                yes,
            ) && #[trigger] call_ensures(self.constrain, (other, &reference), no) ==> yes == no
    }

    /// The predicate can answer `true` on these values.
    pub open spec fn accepts(&self, values: Seq<K>, reference: Option<I>) -> bool {
        exists|tuple: Vec<K>|
            tuple@ == values && #[trigger] call_ensures(self.constrain, (tuple, &reference), true)
    }

    /// A constraint at depth `index`.
    pub fn new(index: usize, constrain: F) -> (made: Self)
        ensures
            made.index == index,
            made.constrain == constrain,
    {
        Constrain { index, constrain, types: PhantomData }
    }
}

impl<K, I, F> Clone for Constrain<K, I, F> where
    K: std::clone::Clone,
    I: std::clone::Clone,
    F: Fn(Vec<K>, &Option<I>) -> bool + Clone,
{
    fn clone(&self) -> (copy: Self)
        ensures
            copy.index == self.index,
            cloned(self.constrain, copy.constrain),
    {
        Constrain { index: self.index, constrain: self.constrain.clone(), types: PhantomData }
    }
}

/// The depth of each constraint, in order.
pub open spec fn depths_of<K, I, F>(constrains: Seq<Constrain<K, I, F>>) -> Seq<usize> where
    K: std::clone::Clone,
    I: std::clone::Clone,
    F: Fn(Vec<K>, &Option<I>) -> bool,
{
    Seq::new(constrains.len(), |i: int| constrains[i].index)
}

/// `after` holds the constraints of `before` in order of depth, those of
/// equal depth in the order they had in `before`.
pub open spec fn sorted_by_depth<K, I, F>(
    before: Seq<Constrain<K, I, F>>,
    after: Seq<Constrain<K, I, F>>,
) -> bool where K: std::clone::Clone, I: std::clone::Clone, F: Fn(Vec<K>, &Option<I>) -> bool {
    exists|from: Seq<int>| came_from(before, after, from)
}

/// `after` is `before` sorted by depth, and `from` says for each place of
/// `after` which place of `before` its constraint had. No place of `before`
/// is named twice: of two places of `after`, the first has the smaller
/// depth or, at equal depth, came from the earlier place.
pub open spec fn came_from<K, I, F>(
    before: Seq<Constrain<K, I, F>>,
    after: Seq<Constrain<K, I, F>>,
    from: Seq<int>,
) -> bool where K: std::clone::Clone, I: std::clone::Clone, F: Fn(Vec<K>, &Option<I>) -> bool {
    &&& from.len() == before.len()
    &&& after.len() == before.len()
    &&& forall|i: int|
        #![trigger after[i]]
        0 <= i < after.len() ==> 0 <= from[i] < before.len() && after[i] == before[from[i]]
    &&& forall|i: int, j: int|
        #![trigger after[i], after[j]]
        0 <= i < j < after.len() ==> after[i].index < after[j].index || (after[i].index
            == after[j].index && from[i] < from[j])
}

/// Sorted constraints have ascending depths, and each of them was there
/// before.
pub proof fn lemma_sorted_by_depth<K, I, F>(
    before: Seq<Constrain<K, I, F>>,
    after: Seq<Constrain<K, I, F>>,
) where K: std::clone::Clone, I: std::clone::Clone, F: Fn(Vec<K>, &Option<I>) -> bool
    requires
        sorted_by_depth(before, after),
    ensures
        ascending(depths_of(after)),
        after.len() == before.len(),
        forall|i: int| 0 <= i < after.len() ==> before.contains(#[trigger] after[i]),
{
    let from = choose|from: Seq<int>| came_from(before, after, from);
    assert forall|i: int, j: int| 0 <= i <= j < after.len() implies depths_of(after)[i]
        <= depths_of(after)[j] by {
        if i < j {
            assert(after[i].index <= after[j].index);
        }
    }
    assert forall|i: int| 0 <= i < after.len() implies before.contains(#[trigger] after[i]) by {
        assert(before[from[i]] == after[i]);
    }
}

/// Sorts the constraints by depth with `sort_by_key` of the standard
/// library's slices. That sort is documented as stable: afterwards the
/// vector holds the same constraints in ascending order of depth, and
/// constraints of equal depth keep the order they had.
#[verifier::external_body]
pub(crate) fn sort_by_depth<K, I, F>(phis: &mut Vec<Constrain<K, I, F>>) where
    K: std::clone::Clone,
    I: std::clone::Clone,
    F: Fn(Vec<K>, &Option<I>) -> bool,

    ensures
        sorted_by_depth(old(phis)@, final(phis)@),
{
    phis.sort_by_key(|c| c.index);
}

} // verus!
