//! The search as a state machine over mathematical values.
//!
//! A problem is what a search never changes: the sizes of the dimensions,
//! the depths of the constraints and what each constraint says of each
//! combination. A machine is what a search moves: the counter's position,
//! the cursor over the constraints, the positions of the solutions found and
//! the number of predicate evaluations made. One step of the machine is one
//! turn of the search loop.

use crate::counter::Advance;
use crate::counter::skip_outcome;
use crate::counter::skip_position;
use crate::schedule::accepted;
use crate::schedule::bad_targets;
use crate::schedule::Cursor;
use crate::schedule::failed;
use crate::schedule::jump_targets;
use crate::schedule::passed;
use crate::schedule::start_cursor;
use vstd::prelude::*;

verus! {

/// The fixed part of a search.
pub struct Problem {
    /// The size of each dimension.
    pub sizes: Seq<usize>,
    /// The depth of each constraint, in scan order.
    pub depths: Seq<usize>,
    /// Whether the constraint at a scan position holds of the combination
    /// at a counter position.
    pub verdict: spec_fn(int, Seq<usize>) -> bool,
}

/// The moving part of a search.
pub struct Machine {
    /// The counter's position.
    pub position: Seq<usize>,
    /// Whether the counter still stands on a combination.
    pub live: bool,
    /// The scan's state.
    pub cursor: Cursor,
    /// The positions of the solutions found so far, in discovery order.
    pub solved: Seq<Seq<usize>>,
    /// The predicate evaluations made so far.
    pub evaluations: nat,
}

impl Problem {
    /// The machine's next step evaluates a predicate.
    pub open spec fn evaluates(self, m: Machine) -> bool {
        m.live && m.cursor.pos < self.depths.len()
    }

    /// The machine's next step records the current position as a solution.
    pub open spec fn accepts(self, m: Machine) -> bool {
        m.live && m.cursor.pos >= self.depths.len()
    }

    /// The depth the counter is told to skip at when the constraint under
    /// the cursor fails: one past the constraint's own depth, so that the
    /// digit at the constraint's depth is the one that moves.
    pub open spec fn skip_depth(self, m: Machine) -> int {
        self.depths[m.cursor.pos as int] + 1
    }

    /// One turn of the search loop. A machine whose counter is exhausted
    /// stays as it is.
    pub open spec fn step(self, m: Machine) -> Machine {
        let jump = jump_targets(self.depths);
        let bad = bad_targets(self.depths);
        if !m.live {
            m
        } else if m.cursor.pos >= self.depths.len() {
            let depth = self.sizes.len() as int;
            let outcome = skip_outcome(self.sizes, m.position, depth);
            Machine {
                position: skip_position(self.sizes, m.position, depth),
                live: outcome != Advance::Exhausted,
                cursor: accepted(m.cursor, outcome, jump, bad),
                solved: m.solved.push(m.position),
                evaluations: m.evaluations,
            }
        } else if (self.verdict)(m.cursor.pos as int, m.position) {
            Machine {
                position: m.position,
                live: m.live,
                cursor: passed(m.cursor, jump),
                solved: m.solved,
                evaluations: m.evaluations + 1,
            }
        } else {
            let depth = self.skip_depth(m);
            let outcome = skip_outcome(self.sizes, m.position, depth);
            Machine {
                position: skip_position(self.sizes, m.position, depth),
                live: outcome != Advance::Exhausted,
                cursor: failed(m.cursor, outcome, jump, bad),
                solved: m.solved,
                evaluations: m.evaluations + 1,
            }
        }
    }

    /// The machine after `steps` turns of the loop.
    pub open spec fn run(self, m: Machine, steps: nat) -> Machine
        decreases steps,
    {
        if steps == 0 {
            m
        } else {
            self.step(self.run(m, (steps - 1) as nat))
        }
    }

    /// How many of the first `steps` turns of the loop evaluate a predicate.
    pub open spec fn invocations(self, m: Machine, steps: nat) -> nat
        decreases steps,
    {
        if steps == 0 {
            0
        } else {
            let before = self.run(m, (steps - 1) as nat);
            self.invocations(m, (steps - 1) as nat) + if self.evaluates(before) {
                1nat
            } else {
                0nat
            }
        }
    }

    /// The counter is exhausted after `steps` turns.
    pub open spec fn halted(self, m: Machine, steps: nat) -> bool {
        !self.run(m, steps).live
    }

    /// The machine a search ends in: the one reached when the counter is
    /// exhausted.
    pub open spec fn settle(self, m: Machine) -> Machine {
        self.run(m, choose|steps: nat| self.halted(m, steps))
    }

    /// Once the counter is exhausted, further turns change nothing.
    pub proof fn lemma_halted_stays(self, m: Machine, steps: nat, more: nat)
        requires
            self.halted(m, steps),
        ensures
            self.run(m, steps + more) == self.run(m, steps),
        decreases more,
    {
        if more > 0 {
            self.lemma_halted_stays(m, steps, (more - 1) as nat);
        }
    }

    /// Whatever number of turns exhausts the counter, the machine reached is
    /// the one the search ends in.
    pub proof fn lemma_settle(self, m: Machine, steps: nat)
        requires
            self.halted(m, steps),
        ensures
            self.settle(m) == self.run(m, steps),
            !self.settle(m).live,
    {
        let chosen = choose|n: nat| self.halted(m, n);
        if chosen <= steps {
            self.lemma_halted_stays(m, chosen, (steps - chosen) as nat);
        } else {
            self.lemma_halted_stays(m, steps, (chosen - steps) as nat);
        }
    }

    /// A search on an exhausted counter finds nothing and evaluates nothing:
    /// the machine stays as it is.
    pub proof fn lemma_exhausted_settles_in_place(self, m: Machine)
        requires
            !m.live,
        ensures
            self.settle(m) == m,
    {
        assert(self.halted(m, 0));
        self.lemma_settle(m, 0);
    }

    /// Searching again after a search has ended, with the counter left as
    /// it is, finds nothing: a machine that starts afresh where the first
    /// search ended, with the cursor back at the start and nothing found
    /// yet, ends with nothing found and not one evaluation more.
    pub proof fn lemma_search_again_finds_nothing(self, m: Machine, steps: nat)
        requires
            self.halted(m, steps),
        ensures
            ({
                let first = self.settle(m);
                let again = self.settle(
                    Machine { cursor: start_cursor(), solved: Seq::empty(), ..first },
                );
                &&& again.solved.len() == 0
                &&& again.evaluations == first.evaluations
                &&& again.position == first.position
                &&& !again.live
            }),
    {
        self.lemma_settle(m, steps);
        let first = self.settle(m);
        self.lemma_exhausted_settles_in_place(
            Machine { cursor: start_cursor(), solved: Seq::empty(), ..first },
        );
    }

    /// The evaluation count goes up by one on a turn that evaluates a
    /// predicate and stays on every other turn: accepting a solution does
    /// not count, and the skip that follows a failed predicate adds nothing
    /// to the one evaluation that failed.
    pub proof fn lemma_step_counts(self, m: Machine)
        ensures
            self.step(m).evaluations == m.evaluations + if self.evaluates(m) {
                1nat
            } else {
                0nat
            },
    {
    }

    /// The evaluation count never goes down, and after any number of turns
    /// it has grown by exactly the number of predicate evaluations made in
    /// them.
    pub proof fn lemma_evaluations_count_invocations(self, m: Machine, steps: nat)
        ensures
            self.run(m, steps).evaluations == m.evaluations + self.invocations(m, steps),
            self.run(m, steps).evaluations >= m.evaluations,
        decreases steps,
    {
        if steps > 0 {
            self.lemma_evaluations_count_invocations(m, (steps - 1) as nat);
        }
    }

    /// When a search ends, its evaluation count has grown by exactly the
    /// number of predicate evaluations made on the way.
    pub proof fn lemma_settle_counts_invocations(self, m: Machine, steps: nat)
        requires
            self.halted(m, steps),
        ensures
            self.settle(m).evaluations == m.evaluations + self.invocations(m, steps),
            self.settle(m).evaluations >= m.evaluations,
    {
        self.lemma_settle(m, steps);
        self.lemma_evaluations_count_invocations(m, steps);
    }

    /// Solutions are only ever appended: what was found stays, in place.
    pub proof fn lemma_solutions_grow(self, m: Machine, steps: nat)
        ensures
            m.solved.is_prefix_of(self.run(m, steps).solved),
        decreases steps,
    {
        if steps > 0 {
            self.lemma_solutions_grow(m, (steps - 1) as nat);
        }
    }
}

} // verus!
