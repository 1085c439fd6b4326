//! The search engine: the engine's state, the tables that schedule the
//! constraints, one turn of the search loop, and the search.

use crate::constraint::Constrain;
use crate::constraint::depths_of;
use crate::constraint::lemma_sorted_by_depth;
use crate::constraint::sort_by_depth;
use crate::constraint::sorted_by_depth;
use crate::counter::Advance;
use crate::counter::all_populated;
use crate::counter::MultiIndexCounter;
use crate::counter::origin;
use crate::counter::volume;
use crate::machine::Machine;
use crate::machine::Problem;
use crate::schedule::ascending;
use crate::schedule::bad_targets;
use crate::schedule::Cursor;
use crate::schedule::deepest;
use crate::schedule::first_reaching;
use crate::schedule::jump_targets;
use crate::schedule::lemma_cursor_stays_in_range;
use crate::schedule::lemma_deepest;
use crate::schedule::lemma_first_reaching_is;
use crate::schedule::lemma_targets_in_range;
use crate::schedule::run_start;
use crate::schedule::slack;
use crate::schedule::start_cursor;
use crate::space::Candidate;
use crate::space::clone_is_copy;
use crate::space::copied;
use crate::space::lemma_copied_is_equal;
use crate::space::picked;
use crate::space::domain_sizes;
use crate::space::resolve;
use crate::space::SearchSpace;
use crate::util::commulative_products;
use crate::util::lemma_product_by_last;
use crate::util::product;
use crate::util::suffix_products;
use crate::util::total_product;
use crate::util::values;
use std::time::Duration;
use vstd::prelude::*;

verus! {

/// What one turn of the search loop did.
#[derive(Clone, Copy, Debug, PartialEq, Eq, Structural)]
pub enum Event {
    /// Every constraint had passed: the combination was recorded and the
    /// counter stepped on.
    Accepted,
    /// The constraint under the cursor passed; the counter stayed.
    Passed,
    /// The constraint under the cursor failed and the counter skipped the
    /// subtree below the failing prefix. The value is the constraint's
    /// depth.
    Skipped(usize),
}

/// A count held at the largest `usize` once it is past it.
pub open spec fn capped(n: nat) -> usize {
    if n > usize::MAX {
        usize::MAX
    } else {
        n as usize
    }
}

/// `solutions` holds the tuples of `base` followed by one tuple for each
/// position of `found`, picked at that position.
pub open spec fn gathered<K: Clone>(
    domains: Seq<Seq<K>>,
    base: Seq<Seq<K>>,
    found: Seq<Seq<usize>>,
    solutions: Seq<Seq<K>>,
) -> bool {
    &&& solutions.len() == base.len() + found.len()
    &&& forall|i: int| 0 <= i < base.len() ==> #[trigger] solutions[i] == base[i]
    &&& forall|i: int|
        0 <= i < found.len() ==> picked(domains, #[trigger] found[i], solutions[base.len() + i])
}

/// The tuples that a list of positions names.
pub open spec fn resolved<K>(domains: Seq<Seq<K>>, positions: Seq<Seq<usize>>) -> Seq<Seq<K>> {
    Seq::new(positions.len(), |i: int| resolve(domains, positions[i]))
}

/// What was gathered onto what was gathered is gathered from the start.
pub proof fn lemma_gathered_on<K: Clone>(
    domains: Seq<Seq<K>>,
    base: Seq<Seq<K>>,
    found: Seq<Seq<usize>>,
    middle: Seq<Seq<K>>,
    more: Seq<Seq<usize>>,
    solutions: Seq<Seq<K>>,
)
    requires
        gathered(domains, base, found, middle),
        gathered(domains, middle, more, solutions),
    ensures
        gathered(domains, base, found + more, solutions),
{
    let all = found + more;
    assert forall|i: int| 0 <= i < base.len() implies #[trigger] solutions[i] == base[i] by {
        assert(middle[i] == base[i]);
    }
    assert forall|i: int| 0 <= i < all.len() implies picked(
        domains,
        #[trigger] all[i],
        solutions[base.len() + i],
    ) by {
        if i < found.len() {
            assert(picked(domains, found[i], middle[base.len() + i]));
            assert(solutions[base.len() + i] == middle[base.len() + i]);
        } else {
            assert(picked(domains, more[i - found.len()], solutions[middle.len() + (i - found.len())]));
        }
    }
}

/// Where cloning gives back an equal value, what was gathered is the
/// tuples that the positions name.
pub proof fn lemma_gathered_is_resolved<K: Clone>(
    domains: Seq<Seq<K>>,
    base: Seq<Seq<K>>,
    found: Seq<Seq<usize>>,
    solutions: Seq<Seq<K>>,
)
    requires
        clone_is_copy::<K>(),
        gathered(domains, base, found, solutions),
    ensures
        solutions == base + resolved(domains, found),
{
    let wanted = base + resolved(domains, found);
    assert forall|i: int| 0 <= i < solutions.len() implies solutions[i] == wanted[i] by {
        if i >= base.len() {
            let k = i - base.len();
            assert(picked(domains, found[k], solutions[base.len() + k]));
            lemma_copied_is_equal(resolve(domains, found[k]), solutions[i]);
        }
    }
    assert(solutions =~= wanted);
}

/// The values of each tuple of a list.
pub open spec fn tuples<K>(list: Seq<Vec<K>>) -> Seq<Seq<K>> {
    Seq::new(list.len(), |i: int| list[i]@)
}

/// The engine: a search space, a counter over it, the constraints in order
/// of depth with their reference values, and the solutions found so far.
#[derive(Debug, Clone)]
pub struct TreeJump<K, I, F = fn(Vec<K>, &Option<I>) -> bool> where
    K: std::clone::Clone,
    I: std::clone::Clone,
    F: Fn(Vec<K>, &Option<I>) -> bool,
{
    input: Vec<Option<I>>,
    pub search_space: SearchSpace<K>,
    counter: MultiIndexCounter,
    pub constrains: Vec<Constrain<K, I, F>>,
    pub solved: Vec<Vec<K>>,
    timing: Option<Duration>,
    count: usize,
}

impl<K, I, F> TreeJump<K, I, F> where
    K: std::clone::Clone,
    I: std::clone::Clone,
    F: Fn(Vec<K>, &Option<I>) -> bool,
{
    /// The reference values, one slot per constraint.
    pub closed spec fn inputs(&self) -> Seq<Option<I>> {
        self.input@
    }

    /// The counter over the search space.
    pub closed spec fn counter(&self) -> MultiIndexCounter {
        self.counter
    }

    /// The number of predicate evaluations made so far; it stays at the
    /// largest `usize` once it gets there.
    pub closed spec fn evaluations(&self) -> usize {
        self.count
    }

    /// The domains of the search space.
    pub closed spec fn domains(&self) -> Seq<Seq<K>> {
        self.search_space@
    }

    /// The constraints, in the order they are scanned in.
    pub closed spec fn constraints(&self) -> Seq<Constrain<K, I, F>> {
        self.constrains@
    }

    /// The solutions found so far, in the order they were found in.
    pub closed spec fn solutions(&self) -> Seq<Seq<K>> {
        tuples(self.solved@)
    }

    /// The time recorded for the last search.
    pub closed spec fn elapsed(&self) -> Option<Duration> {
        self.timing
    }

    /// The depth of each constraint, in order.
    pub open spec fn depths(&self) -> Seq<usize> {
        depths_of(self.constraints())
    }

    /// An engine at the first combination of `space`, with the constraints
    /// put in order of depth, those of equal depth in the order given.
    /// Reference values go with the constraints by position in that order;
    /// where none are given, no constraint has one.
    pub fn new(
        input: Option<Vec<Option<I>>>,
        space: Vec<Vec<K>>,
        phis: Vec<Constrain<K, I, F>>,
    ) -> (tree: Self)
        requires
            input matches Some(values) ==> values@.len() == phis@.len(),
            forall|i: int| 0 <= i < phis@.len() ==> (#[trigger] phis@[i]).index < usize::MAX,
        ensures
            tree.wf(),
            tree.domains() == tuples(space@),
            sorted_by_depth(phis@, tree.constraints()),
            ascending(tree.depths()),
            (forall|i: int| 0 <= i < phis@.len() ==> (#[trigger] phis@[i]).total(space@.len()))
                ==> tree.total(),
            tree.inputs() == match input {
                Some(values) => values@,
                None => Seq::new(phis@.len(), |i: int| None::<I>),
            },
            tree.solutions() == Seq::<Seq<K>>::empty(),
            tree.evaluations() == 0,
            tree.elapsed() == None::<Duration>,
            tree.counter().position() == origin(space@.len()),
            tree.counter().live() == all_populated(domain_sizes(tuples(space@))),
    {
        let ghost domains = tuples(space@);
        let mut dims: Vec<usize> = Vec::new();
        let mut d: usize = 0;
        while d < space.len()
            invariant
                d <= space@.len(),
                dims@ == domain_sizes(tuples(space@)).take(d as int),
            decreases space@.len() - d,
        {
            dims.push(space[d].len());
            assert(dims@ == domain_sizes(tuples(space@)).take(d + 1));
            d += 1;
        }
        assert(domain_sizes(domains).take(space@.len() as int) == domain_sizes(domains));
        let mut search: Vec<Candidate<K>> = Vec::new();
        for cand in each: space
            invariant
                search@.len() == each.index(),
                forall|i: int| 0 <= i < search@.len() ==> (#[trigger] search@[i])@ == domains[i],
                each.seq().len() == domains.len(),
                forall|i: int| 0 <= i < domains.len() ==> (#[trigger] each.seq()[i])@ == domains[i],
        {
            search.push(Candidate { candidate: cand });
        }
        let counter = MultiIndexCounter::new(&dims);
        let mut phis = phis;
        let ghost given = phis@;
        sort_by_depth(&mut phis);
        let input = match input {
            Some(values) => values,
            None => {
                let mut values: Vec<Option<I>> = Vec::new();
                let mut i: usize = 0;
                while i < phis.len()
                    invariant
                        i <= phis@.len(),
                        values@ == Seq::new(i as nat, |i: int| None::<I>),
                    decreases phis@.len() - i,
                {
                    values.push(None);
                    assert(values@ == Seq::new((i + 1) as nat, |i: int| None::<I>));
                    i += 1;
                }
                values
            },
        };
        let tree = TreeJump {
            input,
            search_space: SearchSpace { search_space: search },
            counter,
            constrains: phis,
            solved: Vec::new(),
            timing: None,
            count: 0,
        };
        proof {
            assert(tree.domains() =~= domains);
            assert(tree.solutions() =~= Seq::<Seq<K>>::empty());
            lemma_sorted_by_depth(given, tree.constraints());
            assert forall|i: int| 0 <= i < tree.constraints().len() implies (
            #[trigger] tree.constraints()[i]).index < usize::MAX by {
                let j = choose|j: int| 0 <= j < given.len() && given[j] == tree.constraints()[i];
                assert(given[j].index < usize::MAX);
            }
            if forall|i: int| 0 <= i < given.len() ==> (#[trigger] given[i]).total(space@.len()) {
                assert forall|i: int| 0 <= i < tree.constraints().len() implies (
                #[trigger] tree.constraints()[i]).total(tree.domains().len()) by {
                    let j = choose|j: int|
                        0 <= j < given.len() && given[j] == tree.constraints()[i];
                    assert(given[j].total(space@.len()));
                }
            }
        }
        tree
    }

    /// The depth of each constraint, in order.
    pub fn constrain_indices(&self) -> (depths: Vec<usize>)
        ensures
            depths@ == self.depths(),
    {
        let mut depths: Vec<usize> = Vec::new();
        let mut i: usize = 0;
        while i < self.constrains.len()
            invariant
                i <= self.constrains@.len(),
                depths@ == self.depths().take(i as int),
            decreases self.constrains@.len() - i,
        {
            depths.push(self.constrains[i].index);
            assert(depths@ == self.depths().take(i + 1));
            i += 1;
        }
        assert(self.depths().take(self.constrains@.len() as int) == self.depths());
        depths
    }

    /// The jump table of a list of depths: each position is sent to the
    /// first position of its run of equal depths.
    pub fn jump_indices(indices: &Vec<usize>) -> (jumps: Vec<usize>)
        ensures
            jumps@ == jump_targets(indices@),
    {
        let mut jumps: Vec<usize> = Vec::new();
        let mut pos: usize = 0;
        let mut ind: usize = 0;
        let mut j: usize = 0;
        while j < indices.len()
            invariant
                j <= indices@.len(),
                jumps@ == jump_targets(indices@).take(j as int),
                j == 0 ==> pos == 0 && ind == 0,
                j > 0 ==> pos == run_start(indices@, j - 1) && ind == indices@[j - 1],
            decreases indices@.len() - j,
        {
            let p: usize = indices[j];
            if ind != p {
                jumps.push(j);
                ind = p;
                pos = j;
            } else {
                jumps.push(pos);
            }
            assert(jumps@ == jump_targets(indices@).take(j + 1));
            j += 1;
        }
        assert(jump_targets(indices@).take(indices@.len() as int) == jump_targets(indices@));
        jumps
    }

    /// The bad table of a list of depths: each dimension up to the deepest
    /// one listed is sent to the first position whose depth is at least
    /// that dimension.
    pub fn bad_indices(indices: &Vec<usize>) -> (bad: Vec<usize>)
        requires
            forall|i: int| 0 <= i < indices@.len() ==> indices@[i] < usize::MAX,
        ensures
            bad@ == bad_targets(indices@),
    {
        let mut bad: Vec<usize> = Vec::new();
        let mut pos: usize = 0;
        let mut j: usize = 0;
        while j < indices.len()
            invariant
                j <= indices@.len(),
                forall|i: int| 0 <= i < indices@.len() ==> indices@[i] < usize::MAX,
                bad@.len() == deepest(indices@, j as int) + 1,
                pos == if deepest(indices@, j as int) < 0 {
                    0
                } else {
                    deepest(indices@, j as int)
                },
                forall|d: int|
                    0 <= d < bad@.len() ==> #[trigger] bad@[d] == first_reaching(indices@, d, 0),
            decreases indices@.len() - j,
        {
            let p: usize = indices[j];
            proof {
                lemma_deepest(indices@, j as int);
            }
            if pos <= p {
                while bad.len() <= p
                    invariant
                        j < indices@.len(),
                        p == indices@[j as int],
                        p < usize::MAX,
                        deepest(indices@, j as int) + 1 <= bad@.len(),
                        bad@.len() <= p + 1 || bad@.len() == deepest(indices@, j as int) + 1,
                        forall|i: int| 0 <= i < j ==> indices@[i] <= deepest(indices@, j as int),
                        forall|d: int|
                            0 <= d < bad@.len() ==> #[trigger] bad@[d] == first_reaching(
                                indices@,
                                d,
                                0,
                            ),
                    decreases p + 1 - bad@.len(),
                {
                    proof {
                        lemma_first_reaching_is(indices@, bad@.len() as int, 0, j as int);
                    }
                    bad.push(j);
                }
                pos = p;
            }
            j += 1;
        }
        assert(bad@ =~= bad_targets(indices@));
        bad
    }

    /// The counter runs over the search space, every constraint has its
    /// slot of reference values, and every depth leaves room for the bad
    /// table to hold an entry for it.
    pub open spec fn wf(&self) -> bool {
        &&& self.counter().wf()
        &&& self.counter().sizes() == domain_sizes(self.domains())
        &&& self.inputs().len() == self.constraints().len()
        &&& forall|i: int|
            0 <= i < self.constraints().len() ==> (#[trigger] self.constraints()[i]).index
                < usize::MAX
    }

    /// Every predicate can be evaluated on every tuple of the search space.
    pub open spec fn total(&self) -> bool {
        forall|i: int|
            0 <= i < self.constraints().len() ==> (#[trigger] self.constraints()[i]).total(
                self.domains().len(),
            )
    }

    /// The predicates decide `verdict`: whatever the predicate at a scan
    /// position answers on a tuple picked at a counter position is what
    /// `verdict` says of the two positions.
    pub open spec fn decides(&self, verdict: spec_fn(int, Seq<usize>) -> bool) -> bool {
        forall|j: int, x: Seq<usize>, tuple: Vec<K>, answer: bool|
            #![trigger
                picked(self.domains(), x, tuple@),
                call_ensures(self.constraints()[j].constrain, (tuple, &self.inputs()[j]), answer)
            ]
            0 <= j < self.constraints().len() && x.len() == self.domains().len() && picked(
                self.domains(),
                x,
                tuple@,
            ) && call_ensures(self.constraints()[j].constrain, (tuple, &self.inputs()[j]), answer)
                ==> answer == verdict(j, x)
    }

    /// Values are cloned unchanged and every predicate is deterministic.
    pub open spec fn faithful(&self) -> bool {
        &&& clone_is_copy::<K>()
        &&& forall|i: int|
            0 <= i < self.constraints().len() ==> (#[trigger] self.constraints()[i]).deterministic(
                self.domains().len(),
            )
    }

    /// What the predicates can answer `true` on, by scan position and
    /// counter position.
    pub open spec fn answers(&self) -> spec_fn(int, Seq<usize>) -> bool {
        |j: int, x: Seq<usize>|
            self.constraints()[j].accepts(resolve(self.domains(), x), self.inputs()[j])
    }

    /// Deterministic predicates on values that are cloned unchanged decide
    /// what they can answer `true` on.
    pub proof fn lemma_faithful_decides(&self)
        requires
            self.faithful(),
        ensures
            self.decides(self.answers()),
    {
        assert forall|j: int, x: Seq<usize>, tuple: Vec<K>, answer: bool|
            #![trigger
                picked(self.domains(), x, tuple@),
                call_ensures(self.constraints()[j].constrain, (tuple, &self.inputs()[j]), answer)
            ]
            0 <= j < self.constraints().len() && x.len() == self.domains().len() && picked(
                self.domains(),
                x,
                tuple@,
            ) && call_ensures(
                self.constraints()[j].constrain,
                (tuple, &self.inputs()[j]),
                answer,
            ) implies answer == (self.answers())(j, x) by {
            lemma_copied_is_equal(resolve(self.domains(), x), tuple@);
            assert(self.constraints()[j].deterministic(self.domains().len()));
        }
    }

    /// The fixed part of the engine's search, with `verdict` for what the
    /// constraints say.
    pub open spec fn problem(&self, verdict: spec_fn(int, Seq<usize>) -> bool) -> Problem {
        Problem { sizes: domain_sizes(self.domains()), depths: self.depths(), verdict }
    }

    /// The moving part of a search that starts where the engine stands,
    /// with the scan at `cursor` and nothing found yet.
    pub open spec fn machine(&self, cursor: Cursor) -> Machine {
        Machine {
            position: self.counter().position(),
            live: self.counter().live(),
            cursor,
            solved: Seq::empty(),
            evaluations: self.evaluations() as nat,
        }
    }

    /// The engine stands where the machine `m` stands, with the scan at
    /// `cursor`. Its solutions are those of `base` followed by one tuple
    /// for each position the machine has found, picked at that position.
    /// Its evaluation count is the machine's, held at the largest `usize`
    /// once it is past it.
    pub open spec fn tracks(&self, base: Seq<Seq<K>>, cursor: Cursor, m: Machine) -> bool {
        &&& self.counter().position() == m.position
        &&& self.counter().live() == m.live
        &&& cursor == m.cursor
        &&& self.evaluations() == capped(m.evaluations)
        &&& gathered(self.domains(), base, m.solved, self.solutions())
    }

    /// One turn of the search loop: the combination under the counter is
    /// recorded if every constraint has passed for it; otherwise the
    /// constraint under the cursor is evaluated, and on failure the counter
    /// skips the subtree below the failing prefix. Returns where the scan
    /// goes on and what the turn did. Whatever verdict the predicates
    /// decide, the turn is one step of the search machine of that verdict.
    pub fn step(
        &mut self,
        jump: &Vec<usize>,
        bad: &Vec<usize>,
        cursor: Cursor,
    ) -> (turn: (Cursor, Event))
        requires
            old(self).wf(),
            old(self).total(),
            old(self).counter().live(),
            jump@ == jump_targets(old(self).depths()),
            bad@ == bad_targets(old(self).depths()),
            cursor.pos <= old(self).constraints().len(),
        ensures
            final(self).wf(),
            final(self).domains() == old(self).domains(),
            final(self).constraints() == old(self).constraints(),
            final(self).inputs() == old(self).inputs(),
            final(self).elapsed() == old(self).elapsed(),
            final(self).counter().sizes() == old(self).counter().sizes(),
            turn.0.pos <= old(self).constraints().len(),
            old(self).solutions().is_prefix_of(final(self).solutions()),
            final(self).evaluations() >= old(self).evaluations(),
            turn.1 == Event::Accepted <==> cursor.pos >= old(self).constraints().len(),
            turn.1 matches Event::Skipped(depth) ==> cursor.pos < old(self).constraints().len()
                && depth == old(self).depths()[cursor.pos as int],
            turn.1 == Event::Passed ==> final(self).counter() == old(self).counter(),
            turn.1 != Event::Accepted ==> final(self).solutions() == old(self).solutions(),
            turn.1 == Event::Accepted ==> gathered(
                old(self).domains(),
                old(self).solutions(),
                seq![old(self).counter().position()],
                final(self).solutions(),
            ),
            turn.1 == Event::Accepted ==> final(self).evaluations() == old(self).evaluations(),
            turn.1 != Event::Accepted ==> final(self).evaluations() == capped(
                (old(self).evaluations() + 1) as nat,
            ),
            cursor.pos < old(self).constraints().len() ==> forall|
                verdict: spec_fn(int, Seq<usize>) -> bool,
            |
                #[trigger] old(self).decides(verdict) ==> (turn.1 == Event::Passed <==> verdict(
                    cursor.pos as int,
                    old(self).counter().position(),
                )),
            final(self).counter().remaining() < old(self).counter().remaining() || {
                &&& final(self).counter().remaining() == old(self).counter().remaining()
                &&& slack(turn.0, old(self).constraints().len() as int) < slack(
                    cursor,
                    old(self).constraints().len() as int,
                )
            },
            forall|verdict: spec_fn(int, Seq<usize>) -> bool|
                #[trigger] old(self).decides(verdict) ==> final(self).tracks(
                    old(self).solutions(),
                    turn.0,
                    old(self).problem(verdict).step(old(self).machine(cursor)),
                ),
    {
        let length: usize = self.constrains.len();
        let ghost before = self.machine(cursor);
        let ghost solved = self.solved@;
        let ghost position = self.counter().position();
        proof {
            lemma_targets_in_range(self.depths());
        }
        let tuple = self.search_space.get(self.counter.get());
        let ghost values = tuple@;
        if cursor.pos >= length {
            self.solved.push(tuple);
            let outcome = self.counter.inc();
            let next = cursor.after_accept(outcome, jump, bad);
            proof {
                lemma_cursor_stays_in_range(self.depths(), cursor, outcome);
                assert(tuples(self.solved@) =~= tuples(solved).push(values));
                assert(gathered(
                    self.domains(),
                    old(self).solutions(),
                    seq![position],
                    self.solutions(),
                ));
                assert forall|verdict: spec_fn(int, Seq<usize>) -> bool|
                    #[trigger] old(self).decides(verdict) implies self.tracks(
                    old(self).solutions(),
                    next,
                    old(self).problem(verdict).step(before),
                ) by {
                    assert(old(self).problem(verdict).step(before).solved =~= seq![position]);
                }
            }
            (next, Event::Accepted)
        } else {
            self.count = self.count.saturating_add(1);
            let holds = (self.constrains[cursor.pos].constrain)(tuple, &self.input[cursor.pos]);
            proof {
                assert(gathered(
                    self.domains(),
                    old(self).solutions(),
                    Seq::<Seq<usize>>::empty(),
                    self.solutions(),
                ));
                assert forall|verdict: spec_fn(int, Seq<usize>) -> bool|
                    #[trigger] old(self).decides(verdict) implies holds == verdict(
                    cursor.pos as int,
                    position,
                ) by {
                    assert(picked(self.domains(), position, values));
                }
            }
            if holds {
                let next = cursor.after_pass(jump);
                proof {
                    lemma_cursor_stays_in_range(self.depths(), cursor, Advance::Next);
                    assert forall|verdict: spec_fn(int, Seq<usize>) -> bool|
                        #[trigger] old(self).decides(verdict) implies self.tracks(
                        old(self).solutions(),
                        next,
                        old(self).problem(verdict).step(before),
                    ) by {}
                }
                (next, Event::Passed)
            } else {
                let depth: usize = self.constrains[cursor.pos].index;
                assert(self.constraints()[cursor.pos as int].index < usize::MAX);
                let outcome = self.counter.inc_skip(depth + 1);
                let next = cursor.after_fail(outcome, jump, bad);
                proof {
                    lemma_cursor_stays_in_range(self.depths(), cursor, outcome);
                    assert forall|verdict: spec_fn(int, Seq<usize>) -> bool|
                        #[trigger] old(self).decides(verdict) implies self.tracks(
                        old(self).solutions(),
                        next,
                        old(self).problem(verdict).step(before),
                    ) by {}
                }
                (next, Event::Skipped(depth))
            }
        }
    }

    /// Runs the search to the end of the counter and returns the solutions
    /// that this search found, in the order it found them in. The engine
    /// keeps every solution ever found: the ones of this search are added
    /// behind the ones of earlier searches. A search on an exhausted engine
    /// changes nothing and returns nothing.
    ///
    /// Whatever verdict the predicates decide, the engine ends where the
    /// search machine of that verdict ends, and its evaluation count has
    /// grown by the number of predicate evaluations that the machine makes.
    /// Where in addition the constraints are in order of depth, each at the
    /// depth of a dimension and reading only the dimensions up to it, the
    /// search finds the solutions that the exhaustive scan finds from the
    /// counter's position on, in the same order.
    pub fn search(&mut self) -> (found: Vec<Vec<K>>)
        requires
            old(self).wf(),
            old(self).total(),
        ensures
            final(self).wf(),
            final(self).domains() == old(self).domains(),
            final(self).constraints() == old(self).constraints(),
            final(self).inputs() == old(self).inputs(),
            final(self).elapsed() == old(self).elapsed(),
            final(self).counter().sizes() == old(self).counter().sizes(),
            !final(self).counter().live(),
            old(self).solutions().is_prefix_of(final(self).solutions()),
            final(self).evaluations() >= old(self).evaluations(),
            !old(self).counter().live() ==> final(self).solutions() == old(self).solutions()
                && final(self).evaluations() == old(self).evaluations() && final(self).counter()
                == old(self).counter(),
            !old(self).counter().live() ==> found@.len() == 0,
            found@.len() == final(self).solutions().len() - old(self).solutions().len(),
            forall|i: int|
                0 <= i < found@.len() ==> copied(
                    final(self).solutions()[old(self).solutions().len() + i],
                    #[trigger] tuples(found@)[i],
                ),
            clone_is_copy::<K>() ==> tuples(found@) == final(self).solutions().subrange(
                old(self).solutions().len() as int,
                final(self).solutions().len() as int,
            ),
            forall|verdict: spec_fn(int, Seq<usize>) -> bool|
                #[trigger] old(self).decides(verdict) ==> ({
                    let problem = old(self).problem(verdict);
                    let first = old(self).machine(start_cursor());
                    let last = problem.settle(first);
                    &&& final(self).tracks(old(self).solutions(), last.cursor, last)
                    &&& exists|turns: nat|
                        problem.halted(first, turns) && final(self).evaluations() == capped(
                            (old(self).evaluations() + #[trigger] problem.invocations(
                                first,
                                turns,
                            )) as nat,
                        )
                    &&& problem.scheduled() && problem.local() ==> last.solved == problem.scan(
                        old(self).counter().position(),
                        old(self).counter().live(),
                    )
                    &&& problem.scheduled() && problem.local() && clone_is_copy::<K>()
                        ==> final(self).solutions() == old(self).solutions() + resolved(
                        old(self).domains(),
                        problem.scan(old(self).counter().position(), old(self).counter().live()),
                    )
                }),
    {
        let length: usize = self.constrains.len();
        let start: usize = self.solved.len();
        let cons = self.constrain_indices();
        let bad = Self::bad_indices(&cons);
        let jump = Self::jump_indices(&cons);
        let mut cursor = Cursor::start();
        let ghost base = self.solutions();
        let ghost first = self.machine(cursor);
        let ghost mut turns: nat = 0;
        assert(gathered(self.domains(), base, Seq::<Seq<usize>>::empty(), self.solutions()));
        while self.counter.check()
            invariant
                self.wf(),
                self.total(),
                self.domains() == old(self).domains(),
                self.constraints() == old(self).constraints(),
                self.inputs() == old(self).inputs(),
                self.elapsed() == old(self).elapsed(),
                self.counter().sizes() == old(self).counter().sizes(),
                base == old(self).solutions(),
                start == base.len(),
                first == old(self).machine(start_cursor()),
                length == self.constraints().len(),
                jump@ == jump_targets(self.depths()),
                bad@ == bad_targets(self.depths()),
                cursor.pos <= length,
                old(self).solutions().is_prefix_of(self.solutions()),
                self.evaluations() >= old(self).evaluations(),
                turns == 0 ==> self.solutions() == old(self).solutions() && self.evaluations()
                    == old(self).evaluations() && self.counter() == old(self).counter(),
                turns > 0 ==> old(self).counter().live(),
                forall|verdict: spec_fn(int, Seq<usize>) -> bool|
                    #[trigger] old(self).decides(verdict) ==> self.tracks(
                        base,
                        cursor,
                        old(self).problem(verdict).run(first, turns),
                    ),
            decreases self.counter.remaining(), slack(cursor, length as int),
        {
            let ghost standing = self.machine(cursor);
            let ghost before = *self;
            let turn = self.step(&jump, &bad, cursor);
            cursor = turn.0;
            proof {
                assert forall|verdict: spec_fn(int, Seq<usize>) -> bool|
                    #[trigger] old(self).decides(verdict) implies self.tracks(
                    base,
                    cursor,
                    old(self).problem(verdict).run(first, turns + 1),
                ) by {
                    let problem = old(self).problem(verdict);
                    let here = problem.run(first, turns);
                    assert(before.decides(verdict));
                    assert(before.problem(verdict) == problem);
                    assert(self.tracks(before.solutions(), cursor, problem.step(standing)));
                    lemma_gathered_on(
                        self.domains(),
                        base,
                        here.solved,
                        before.solutions(),
                        problem.step(standing).solved,
                        self.solutions(),
                    );
                    assert(problem.step(here).solved =~= here.solved + problem.step(
                        standing,
                    ).solved);
                    assert(self.tracks(base, cursor, problem.step(here)));
                }
                turns = turns + 1;
            }
        }
        proof {
            assert forall|verdict: spec_fn(int, Seq<usize>) -> bool|
                #[trigger] old(self).decides(verdict) implies ({
                let problem = old(self).problem(verdict);
                let last = problem.settle(first);
                &&& self.tracks(base, last.cursor, last)
                &&& exists|turns: nat|
                    problem.halted(first, turns) && self.evaluations() == capped(
                        (old(self).evaluations() + #[trigger] problem.invocations(
                            first,
                            turns,
                        )) as nat,
                    )
                &&& problem.scheduled() && problem.local() ==> last.solved == problem.scan(
                    first.position,
                    first.live,
                )
                &&& problem.scheduled() && problem.local() && clone_is_copy::<K>()
                    ==> self.solutions() == base + resolved(
                    self.domains(),
                    problem.scan(first.position, first.live),
                )
            }) by {
                let problem = old(self).problem(verdict);
                let last = problem.settle(first);
                problem.lemma_settle(first, turns);
                problem.lemma_settle_counts_invocations(first, turns);
                assert(problem.halted(first, turns) && self.evaluations() == capped(
                    (old(self).evaluations() + problem.invocations(first, turns)) as nat,
                ));
                if problem.scheduled() && problem.local() {
                    problem.lemma_search_finds_what_the_scan_finds(first);
                    assert(last.solved =~= problem.scan(first.position, first.live));
                    if clone_is_copy::<K>() {
                        lemma_gathered_is_resolved(
                            self.domains(),
                            base,
                            last.solved,
                            self.solutions(),
                        );
                    }
                }
            }
        }
        let mut found: Vec<Vec<K>> = Vec::new();
        let mut i: usize = start;
        while i < self.solved.len()
            invariant
                start <= i <= self.solved@.len(),
                found@.len() == i - start,
                forall|k: int|
                    0 <= k < found@.len() ==> copied(
                        tuples(self.solved@)[start + k],
                        #[trigger] tuples(found@)[k],
                    ),
            decreases self.solved@.len() - i,
        {
            let tuple = self.solved[i].clone();
            let ghost earlier = found@;
            found.push(tuple);
            proof {
                assert forall|k: int| 0 <= k < found@.len() implies copied(
                    tuples(self.solved@)[start + k],
                    #[trigger] tuples(found@)[k],
                ) by {
                    if k < earlier.len() {
                        assert(tuples(found@)[k] == tuples(earlier)[k]);
                    }
                }
            }
            i += 1;
        }
        proof {
            if clone_is_copy::<K>() {
                let rest = self.solutions().subrange(start as int, self.solutions().len() as int);
                assert forall|k: int| 0 <= k < found@.len() implies tuples(found@)[k]
                    == rest[k] by {
                    lemma_copied_is_equal(tuples(self.solved@)[start + k], tuples(found@)[k]);
                }
                assert(tuples(found@) =~= rest);
            }
        }
        found
    }

    /// The solutions found so far, those of every search.
    pub fn solved_so_far(&self) -> (list: &Vec<Vec<K>>)
        ensures
            tuples(list@) == self.solutions(),
    {
        &self.solved
    }

    /// The size of each dimension as a number.
    pub open spec fn extents(&self) -> Seq<nat> {
        Seq::new(self.counter().sizes().len(), |d: int| self.counter().sizes()[d] as nat)
    }

    /// The product of the sizes of the first `k` dimensions is the number of
    /// combinations that the counter has for them.
    pub proof fn lemma_product_is_volume(&self, k: int)
        requires
            0 <= k <= self.counter().sizes().len(),
        ensures
            product(self.extents(), 0, k) == volume(self.counter().sizes(), k),
        decreases k,
    {
        if k > 0 {
            self.lemma_product_is_volume(k - 1);
            lemma_product_by_last(self.extents(), 0, k);
        }
    }

    /// What progress through the search space is measured in: the size of
    /// the whole space, and for each dimension the number of combinations
    /// that one step of its digit stands for, which is the product of the
    /// sizes of the deeper dimensions. There is no measure where the size of
    /// the space does not fit 64 bits.
    pub fn progress_plan(&self) -> (plan: Option<(u64, Vec<u64>)>)
        ensures
            match plan {
                Some((length, scale)) => {
                    &&& total_product(self.extents(), u64::MAX as nat) == Some(length as nat)
                    &&& values(scale@) == suffix_products(self.extents(), u64::MAX as nat)
                },
                None => total_product(self.extents(), u64::MAX as nat) is None,
            },
    {
        let sizes = self.counter.dimensions();
        let mut dims: Vec<u64> = Vec::new();
        let mut d: usize = 0;
        while d < sizes.len()
            invariant
                d <= sizes@.len(),
                sizes@ == self.counter().sizes(),
                dims@.len() == d,
                values(dims@) == self.extents().take(d as int),
            decreases sizes@.len() - d,
        {
            let size: usize = sizes[d];
            let ghost before = dims@;
            dims.push(size as u64);
            proof {
                assert forall|i: int| 0 <= i < d implies values(dims@)[i] == self.extents()[i] by {
                    assert(values(before)[i] == self.extents().take(d as int)[i]);
                }
                assert(values(dims@) =~= self.extents().take(d + 1));
            }
            d += 1;
        }
        assert(self.extents().take(sizes@.len() as int) == self.extents());
        let (tot, pre, after) = commulative_products(&dims);
        match tot {
            Some(length) => {
                let scale = if pre.len() == 0 {
                    after
                } else {
                    pre
                };
                Some((length, scale))
            },
            None => None,
        }
    }

    /// Whether a combination is left for the search to look at.
    pub fn has_next(&self) -> (more: bool)
        ensures
            more == self.counter().live(),
    {
        self.counter.check()
    }

    /// The number of predicate evaluations made so far.
    pub fn counting(&self) -> (count: usize)
        ensures
            count == self.evaluations(),
    {
        self.count
    }

    /// The time the last search took, where one was recorded.
    pub fn timing(&self) -> (elapsed: Option<Duration>)
        ensures
            elapsed == self.elapsed(),
    {
        self.timing
    }

    /// Records the time a search took.
    pub fn record_timing(&mut self, elapsed: Duration)
        ensures
            final(self).elapsed() == Some(elapsed),
            final(self).domains() == old(self).domains(),
            final(self).constraints() == old(self).constraints(),
            final(self).inputs() == old(self).inputs(),
            final(self).counter() == old(self).counter(),
            final(self).solutions() == old(self).solutions(),
            final(self).evaluations() == old(self).evaluations(),
    {
        self.timing = Some(elapsed);
    }
}

} // verus!
