//! The search space: one ordered domain of candidate values per dimension.

use vstd::prelude::*;

verus! {

/// Cloning a value of `K` gives back an equal value.
pub open spec fn clone_is_copy<K: Clone>() -> bool {
    forall|a: K, b: K| #[trigger] cloned(a, b) ==> a == b
}

/// The ordered candidate values of one dimension. Values may repeat.
#[derive(Debug, Clone, PartialEq)]
pub struct Candidate<K: std::clone::Clone> {
    pub candidate: Vec<K>,
}

impl<K: std::clone::Clone> View for Candidate<K> {
    type V = Seq<K>;

    open spec fn view(&self) -> Seq<K> {
        self.candidate@
    }
}

/// The domains of all dimensions, in order.
#[derive(Debug, Clone, PartialEq)]
pub struct SearchSpace<K: std::clone::Clone> {
    pub search_space: Vec<Candidate<K>>,
}

impl<K: std::clone::Clone> View for SearchSpace<K> {
    type V = Seq<Seq<K>>;

    open spec fn view(&self) -> Seq<Seq<K>> {
        Seq::new(self.search_space@.len(), |d: int| self.search_space@[d]@)
    }
}

/// The size of each domain.
pub open spec fn domain_sizes<K>(domains: Seq<Seq<K>>) -> Seq<usize> {
    Seq::new(domains.len(), |d: int| domains[d].len() as usize)
}

/// `index` names one value in each of the first `index.len()` domains.
pub open spec fn addresses<K>(domains: Seq<Seq<K>>, index: Seq<usize>) -> bool {
    &&& index.len() <= domains.len()
    &&& forall|d: int| 0 <= d < index.len() ==> index[d] < domains[d].len()
}

/// The value tuple that `index` names: for each dimension the value at the
/// indexed place of its domain.
pub open spec fn resolve<K>(domains: Seq<Seq<K>>, index: Seq<usize>) -> Seq<K> {
    Seq::new(index.len(), |d: int| domains[d][index[d] as int])
}

/// `tuple` holds a clone of each value of `values`, in order.
pub open spec fn copied<K: Clone>(values: Seq<K>, tuple: Seq<K>) -> bool {
    &&& tuple.len() == values.len()
    &&& forall|d: int| 0 <= d < values.len() ==> cloned(values[d], #[trigger] tuple[d])
}

/// `tuple` was picked at `index`: it holds a clone of each value that
/// `index` names.
pub open spec fn picked<K: Clone>(domains: Seq<Seq<K>>, index: Seq<usize>, tuple: Seq<K>) -> bool {
    copied(resolve(domains, index), tuple)
}

/// Where cloning gives back an equal value, a tuple of clones is the tuple
/// of the values.
pub proof fn lemma_copied_is_equal<K: Clone>(values: Seq<K>, tuple: Seq<K>)
    requires
        clone_is_copy::<K>(),
        copied(values, tuple),
    ensures
        tuple == values,
{
    assert(tuple =~= values);
}

impl<K: std::clone::Clone> SearchSpace<K> {
    /// Resolves a position into the tuple of values it names.
    pub fn get(&self, index: &Vec<usize>) -> (tuple: Vec<K>)
        requires
            addresses(self@, index@),
        ensures
            tuple@.len() == index@.len(),
            picked(self@, index@, tuple@),
            clone_is_copy::<K>() ==> tuple@ == resolve(self@, index@),
    {
        let mut tuple: Vec<K> = Vec::new();
        let mut d: usize = 0;
        while d < index.len()
            invariant
                d <= index@.len(),
                addresses(self@, index@),
                tuple@.len() == d,
                forall|i: int|
                    0 <= i < d ==> cloned(resolve(self@, index@)[i], #[trigger] tuple@[i]),
            decreases index@.len() - d,
        {
            let place: usize = index[d];
            proof {
                assert(self@[d as int] == self.search_space@[d as int]@);
            }
            let value = self.search_space[d].candidate[place].clone();
            tuple.push(value);
            d += 1;
        }
        proof {
            if clone_is_copy::<K>() {
                assert(tuple@ =~= resolve(self@, index@));
            }
        }
        tuple
    }
}

} // verus!
