//! What a search finds.
//!
//! The exhaustive scan walks the counter over every combination, one plain
//! step at a time, and keeps the positions of those that satisfy every
//! constraint. Where the constraints are in order of depth and each of them
//! reads only the dimensions up to its own depth, the search finds exactly
//! what the exhaustive scan finds, in the same order: the subtrees it skips
//! hold no solution.

use crate::counter::Advance;
use crate::counter::in_bounds;
use crate::counter::landing;
use crate::counter::lemma_landing;
use crate::counter::lemma_landing_is;
use crate::counter::lemma_rank_of_smaller_digits;
use crate::counter::lemma_rank_tells_apart;
use crate::counter::lemma_skip;
use crate::counter::lemma_step_rank;
use crate::counter::origin;
use crate::counter::rank;
use crate::counter::remaining;
use crate::counter::same_prefix;
use crate::counter::skip_outcome;
use crate::counter::skip_position;
use crate::machine::Machine;
use crate::machine::Problem;
use crate::schedule::ascending;
use crate::schedule::bad_targets;
use crate::schedule::Cursor;
use crate::schedule::jump_targets;
use crate::schedule::lemma_cursor_stays_in_range;
use crate::schedule::lemma_deepest;
use crate::schedule::lemma_first_reaching;
use crate::schedule::lemma_run_start;
use crate::schedule::lemma_targets_in_range;
use crate::schedule::resume;
use crate::schedule::run_start;
use crate::schedule::slack;
use crate::schedule::start_cursor;
use vstd::prelude::*;

verus! {

impl Problem {
    /// The combination at `x` satisfies every constraint.
    pub open spec fn solves(self, x: Seq<usize>) -> bool {
        forall|j: int| 0 <= j < self.depths.len() ==> #[trigger] (self.verdict)(j, x)
    }

    /// The constraints are in order of depth, and every depth names a
    /// dimension.
    pub open spec fn scheduled(self) -> bool {
        &&& self.depths.len() <= usize::MAX
        &&& ascending(self.depths)
        &&& forall|j: int|
            0 <= j < self.depths.len() ==> #[trigger] self.depths[j] < self.sizes.len()
    }

    /// Every constraint reads only the dimensions up to its own depth: of
    /// two combinations inside the bounds that share the digits up to that
    /// depth, it says the same.
    pub open spec fn local(self) -> bool {
        forall|j: int, a: Seq<usize>, b: Seq<usize>|
            0 <= j < self.depths.len() && in_bounds(self.sizes, a) && in_bounds(self.sizes, b)
                && same_prefix(a, b, self.depths[j] + 1) ==> #[trigger] (self.verdict)(j, a)
                == #[trigger] (self.verdict)(j, b)
    }

    /// The exhaustive scan: the positions of the solutions among the
    /// combinations from `x` on, in the order the counter visits them in one
    /// plain step at a time.
    pub open spec fn scan(self, x: Seq<usize>, live: bool) -> Seq<Seq<usize>>
        decreases remaining(self.sizes, x, live),
        when live ==> in_bounds(self.sizes, x)
    {
        if !live {
            Seq::empty()
        } else {
            let all = self.sizes.len() as int;
            let here = if self.solves(x) {
                seq![x]
            } else {
                Seq::empty()
            };
            proof {
                lemma_skip(self.sizes, x, all);
            }
            here + self.scan(
                skip_position(self.sizes, x, all),
                skip_outcome(self.sizes, x, all) != Advance::Exhausted,
            )
        }
    }

    /// Where the scan over the constraints has got to on the current
    /// combination: every constraint before this one has passed for it.
    pub open spec fn front(self, cursor: Cursor) -> int {
        if cursor.pending {
            jump_targets(self.depths)[cursor.pos as int] as int
        } else {
            cursor.pos as int
        }
    }

    /// The machine `m` is on the way from `first` to what the exhaustive
    /// scan finds: what it has found and what the scan would still find
    /// from its position on make up what the scan finds from the position
    /// of `first` on, and the constraints that it takes as passed have
    /// passed for the combination it stands on.
    pub open spec fn on_track(self, first: Machine, m: Machine) -> bool {
        &&& m.live ==> in_bounds(self.sizes, m.position)
        &&& m.cursor.pos <= self.depths.len()
        &&& m.solved + self.scan(m.position, m.live) == first.solved + self.scan(
            first.position,
            first.live,
        )
        &&& m.cursor.pending ==> 1 <= m.cursor.pos < self.depths.len() && jump_targets(
            self.depths,
        )[m.cursor.pos as int] == jump_targets(self.depths)[m.cursor.pos - 1]
        &&& m.live ==> forall|j: int|
            0 <= j < self.front(m.cursor) ==> #[trigger] (self.verdict)(j, m.position)
    }

    /// A constraint says the same of two combinations that share the digits
    /// up to its depth.
    pub proof fn lemma_same_verdict(self, j: int, x: Seq<usize>, y: Seq<usize>)
        requires
            self.local(),
            0 <= j < self.depths.len(),
            in_bounds(self.sizes, x),
            in_bounds(self.sizes, y),
            same_prefix(x, y, self.depths[j] + 1),
        ensures
            (self.verdict)(j, x) == (self.verdict)(j, y),
    {
    }

    /// The subtree below a failing prefix holds no solution: from any
    /// combination `z` that shares with `x` the digits up to the depth of a
    /// constraint that fails at `x`, the exhaustive scan finds what it finds
    /// from where the skip at `x` lands.
    pub proof fn lemma_failed_subtree(self, x: Seq<usize>, z: Seq<usize>, j: int)
        requires
            self.scheduled(),
            self.local(),
            in_bounds(self.sizes, x),
            in_bounds(self.sizes, z),
            0 <= j < self.depths.len(),
            same_prefix(x, z, self.depths[j] + 1),
            !(self.verdict)(j, x),
        ensures
            self.scan(z, true) == self.scan(
                skip_position(self.sizes, x, self.depths[j] + 1),
                skip_outcome(self.sizes, x, self.depths[j] + 1) != Advance::Exhausted,
            ),
        decreases remaining(self.sizes, z, true),
    {
        let dims = self.sizes;
        let all = dims.len() as int;
        let e = self.depths[j] + 1;
        assert(self.depths[j] < self.sizes.len());
        self.lemma_same_verdict(j, x, z);
        assert(!self.solves(z));
        let next = skip_position(dims, z, all);
        let more = skip_outcome(dims, z, all) != Advance::Exhausted;
        let m = landing(dims, z, all);
        lemma_landing(dims, z, all);
        lemma_skip(dims, z, all);
        assert(self.scan(z, true) == Seq::<Seq<usize>>::empty() + self.scan(next, more));
        assert(Seq::<Seq<usize>>::empty() + self.scan(next, more) =~= self.scan(next, more));
        if m >= e {
            assert(same_prefix(x, next, e));
            self.lemma_failed_subtree(x, next, j);
        } else {
            assert forall|i: int| m < i < e implies x[i] + 1 >= #[trigger] dims[i] by {
                assert(x[i] == z[i]);
            }
            if m >= 0 {
                assert(x[m] == z[m]);
            }
            lemma_landing_is(dims, x, e, m);
            assert(skip_position(dims, x, e) =~= next);
        }
    }

    /// Every constraint before the start of a run has a smaller depth than
    /// the run.
    pub proof fn lemma_before_run(self, q: int, j: int)
        requires
            ascending(self.depths),
            0 <= q < self.depths.len(),
            0 <= j < run_start(self.depths, q),
        ensures
            self.depths[j] < self.depths[q],
    {
        lemma_run_start(self.depths, q);
        let start = run_start(self.depths, q);
        assert(self.depths[j] <= self.depths[start - 1]);
        assert(self.depths[start - 1] <= self.depths[q]);
    }

    /// Every constraint before the one at which the scan resumes after a
    /// carry reads only dimensions before the one carried into.
    pub proof fn lemma_before_resume(self, depth: usize, j: int)
        requires
            depth >= 1,
            0 <= j < resume(bad_targets(self.depths), depth, self.depths.len() as int),
            j < self.depths.len(),
        ensures
            self.depths[j] < depth - 1,
    {
        let bad = bad_targets(self.depths);
        lemma_deepest(self.depths, self.depths.len() as int);
        if depth - 1 < bad.len() {
            lemma_first_reaching(self.depths, depth - 1, 0);
        }
    }

    /// One turn of the loop keeps the machine on track.
    pub proof fn lemma_step_stays_on_track(self, first: Machine, m: Machine)
        requires
            self.scheduled(),
            self.local(),
            self.on_track(first, m),
        ensures
            self.on_track(first, self.step(m)),
    {
        if m.live {
            let dims = self.sizes;
            let all = dims.len() as int;
            let length = self.depths.len() as int;
            let x = m.position;
            let pos = m.cursor.pos as int;
            let next = self.step(m);
            let jump = jump_targets(self.depths);
            lemma_targets_in_range(self.depths);
            if pos >= length {
                let outcome = skip_outcome(dims, x, all);
                let land = landing(dims, x, all);
                lemma_skip(dims, x, all);
                lemma_cursor_stays_in_range(self.depths, m.cursor, outcome);
                assert(self.solves(x));
                assert(self.scan(x, true) == seq![m.position] + self.scan(
                    next.position,
                    next.live,
                ));
                assert(next.solved + self.scan(next.position, next.live) =~= m.solved
                    + self.scan(x, true));
                if next.live {
                    assert forall|j: int| 0 <= j < self.front(next.cursor) implies #[trigger] (
                    self.verdict)(j, next.position) by {
                        match outcome {
                            Advance::Next => {
                                lemma_run_start(self.depths, length - 1);
                                assert(next.cursor.pos == jump[length - 1]);
                                self.lemma_before_run(length - 1, j);
                            },
                            Advance::Carry(depth) => {
                                self.lemma_before_resume(depth, j);
                            },
                            Advance::Exhausted => {},
                        }
                        assert(self.depths[j] < land);
                        assert((self.verdict)(j, m.position));
                        self.lemma_same_verdict(j, x, next.position);
                    }
                }
            } else if (self.verdict)(pos, m.position) {
                lemma_cursor_stays_in_range(self.depths, m.cursor, Advance::Next);
                if !m.cursor.pending {
                    assert forall|j: int| 0 <= j < self.front(next.cursor) implies #[trigger] (
                    self.verdict)(j, next.position) by {
                        if j < pos {
                            assert((self.verdict)(j, m.position));
                        }
                    }
                }
            } else {
                let e = self.depths[pos] + 1;
                let outcome = skip_outcome(dims, x, e);
                let land = landing(dims, x, e);
                assert(self.depths[pos] < self.sizes.len());
                lemma_skip(dims, x, e);
                lemma_cursor_stays_in_range(self.depths, m.cursor, outcome);
                self.lemma_failed_subtree(x, x, pos);
                if next.live {
                    assert forall|j: int| 0 <= j < self.front(next.cursor) implies #[trigger] (
                    self.verdict)(j, next.position) by {
                        match outcome {
                            Advance::Next => {
                                lemma_run_start(self.depths, pos);
                                lemma_run_start(self.depths, 0);
                                assert(self.front(next.cursor) == jump[pos]);
                                self.lemma_before_run(pos, j);
                            },
                            Advance::Carry(depth) => {
                                self.lemma_before_resume(depth, j);
                            },
                            Advance::Exhausted => {},
                        }
                        assert(self.depths[j] < land);
                        lemma_run_start(self.depths, pos);
                        if j >= run_start(self.depths, pos) {
                            if j <= pos {
                                assert(self.depths[j] == self.depths[pos]);
                            } else {
                                assert(self.depths[pos] <= self.depths[j]);
                            }
                        }
                        assert(j < self.front(m.cursor));
                        assert((self.verdict)(j, m.position));
                        self.lemma_same_verdict(j, x, next.position);
                    }
                }
            }
        }
    }

    /// From the start of a search on, the machine stays on track.
    pub proof fn lemma_run_stays_on_track(self, first: Machine, steps: nat)
        requires
            self.scheduled(),
            self.local(),
            first.live ==> in_bounds(self.sizes, first.position),
            first.cursor == start_cursor(),
        ensures
            self.on_track(first, self.run(first, steps)),
        decreases steps,
    {
        if steps > 0 {
            self.lemma_run_stays_on_track(first, (steps - 1) as nat);
            self.lemma_step_stays_on_track(first, self.run(first, (steps - 1) as nat));
        }
    }

    /// Running one more turn is running from one turn further on.
    pub proof fn lemma_run_shift(self, m: Machine, steps: nat)
        ensures
            self.run(m, steps + 1) == self.run(self.step(m), steps),
        decreases steps,
    {
        assert(self.run(m, steps + 1) == self.step(self.run(m, steps)));
        if steps > 0 {
            self.lemma_run_shift(m, (steps - 1) as nat);
            assert(self.run(self.step(m), steps) == self.step(
                self.run(self.step(m), (steps - 1) as nat),
            ));
        } else {
            assert(self.run(m, 0) == m);
            assert(self.run(self.step(m), 0) == self.step(m));
        }
    }

    /// Every search ends: the counter is exhausted after finitely many
    /// turns of the loop.
    pub proof fn lemma_search_halts(self, m: Machine)
        requires
            m.live ==> in_bounds(self.sizes, m.position),
            m.cursor.pos <= self.depths.len() <= usize::MAX,
        ensures
            exists|steps: nat| self.halted(m, steps),
        decreases remaining(self.sizes, m.position, m.live), slack(
            m.cursor,
            self.depths.len() as int,
        ),
    {
        if !m.live {
            assert(self.halted(m, 0));
        } else {
            let dims = self.sizes;
            let next = self.step(m);
            if m.cursor.pos >= self.depths.len() {
                let outcome = skip_outcome(dims, m.position, dims.len() as int);
                lemma_skip(dims, m.position, dims.len() as int);
                lemma_cursor_stays_in_range(self.depths, m.cursor, outcome);
            } else if (self.verdict)(m.cursor.pos as int, m.position) {
                lemma_cursor_stays_in_range(self.depths, m.cursor, Advance::Next);
            } else {
                let outcome = skip_outcome(dims, m.position, self.skip_depth(m));
                lemma_skip(dims, m.position, self.skip_depth(m));
                lemma_cursor_stays_in_range(self.depths, m.cursor, outcome);
            }
            self.lemma_search_halts(next);
            let steps = choose|steps: nat| self.halted(next, steps);
            self.lemma_run_shift(m, steps);
            assert(self.halted(m, steps + 1));
        }
    }

    /// With the constraints in order of depth, each reading only the
    /// dimensions up to its own depth, a search that starts at the first
    /// constraint ends, and it finds exactly what the exhaustive scan finds
    /// from the counter's position on, in the same order.
    pub proof fn lemma_search_finds_what_the_scan_finds(self, first: Machine)
        requires
            self.scheduled(),
            self.local(),
            first.live ==> in_bounds(self.sizes, first.position),
            first.cursor == start_cursor(),
        ensures
            !self.settle(first).live,
            self.settle(first).solved == first.solved + self.scan(first.position, first.live),
    {
        self.lemma_search_halts(first);
        let steps = choose|steps: nat| self.halted(first, steps);
        self.lemma_settle(first, steps);
        self.lemma_run_stays_on_track(first, steps);
        let last = self.settle(first);
        assert(last.solved + self.scan(last.position, false) =~= last.solved);
    }

    /// The exhaustive scan misses nothing: it finds every solution that
    /// does not rank before the combination it starts at.
    pub proof fn lemma_scan_finds_every_solution(self, x: Seq<usize>, z: Seq<usize>)
        requires
            in_bounds(self.sizes, x),
            in_bounds(self.sizes, z),
            rank(self.sizes, x, self.sizes.len() as int) <= rank(
                self.sizes,
                z,
                self.sizes.len() as int,
            ),
            self.solves(z),
        ensures
            self.scan(x, true).contains(z),
        decreases rank(self.sizes, z, self.sizes.len() as int) - rank(
            self.sizes,
            x,
            self.sizes.len() as int,
        ),
    {
        let dims = self.sizes;
        let all = dims.len() as int;
        let next = skip_position(dims, x, all);
        let more = skip_outcome(dims, x, all) != Advance::Exhausted;
        let m = landing(dims, x, all);
        lemma_skip(dims, x, all);
        lemma_landing(dims, x, all);
        let here = if self.solves(x) {
            seq![x]
        } else {
            Seq::empty()
        };
        assert(self.scan(x, true) == here + self.scan(next, more));
        if rank(dims, x, all) == rank(dims, z, all) {
            lemma_rank_tells_apart(dims, x, z, all);
            assert(x =~= z);
            assert(self.scan(x, true)[0] == z);
        } else {
            if m < 0 {
                assert forall|i: int| 0 <= i < all implies z[i] <= x[i] by {
                    assert(x[i] + 1 >= dims[i]);
                }
                lemma_rank_of_smaller_digits(dims, x, z, all);
            }
            lemma_step_rank(dims, x, all);
            self.lemma_scan_finds_every_solution(next, z);
            let found = self.scan(next, more);
            let i = choose|i: int| 0 <= i < found.len() && found[i] == z;
            assert(self.scan(x, true)[here.len() + i] == z);
        }
    }

    /// The exhaustive scan finds nothing else: each of its entries is a
    /// combination of the search space that satisfies every constraint, and
    /// it does not rank before the combination the scan starts at.
    pub proof fn lemma_scan_finds_only_solutions(self, x: Seq<usize>, live: bool, i: int)
        requires
            live ==> in_bounds(self.sizes, x),
            0 <= i < self.scan(x, live).len(),
        ensures
            self.is_solution(self.scan(x, live)[i]),
            rank(self.sizes, x, self.sizes.len() as int) <= rank(
                self.sizes,
                self.scan(x, live)[i],
                self.sizes.len() as int,
            ),
        decreases remaining(self.sizes, x, live),
    {
        let dims = self.sizes;
        let all = dims.len() as int;
        let next = skip_position(dims, x, all);
        let more = skip_outcome(dims, x, all) != Advance::Exhausted;
        lemma_skip(dims, x, all);
        let here = if self.solves(x) {
            seq![x]
        } else {
            Seq::empty()
        };
        assert(self.scan(x, live) == here + self.scan(next, more));
        if i < here.len() {
            assert(self.scan(x, live)[i] == x);
        } else {
            self.lemma_scan_finds_only_solutions(next, more, i - here.len());
            lemma_landing(dims, x, all);
            lemma_step_rank(dims, x, all);
        }
    }

    /// From the first combination on, the exhaustive scan finds every
    /// solution there is.
    pub proof fn lemma_scan_from_origin_is_complete(self, z: Seq<usize>)
        requires
            self.is_solution(z),
        ensures
            self.scan(origin(self.sizes.len()), true).contains(z),
    {
        let dims = self.sizes;
        let start = origin(dims.len());
        assert(in_bounds(dims, start)) by {
            assert forall|i: int| 0 <= i < dims.len() implies start[i] < dims[i] by {
                assert(z[i] < dims[i]);
            }
        }
        lemma_rank_of_smaller_digits(dims, z, start, dims.len() as int);
        self.lemma_scan_finds_every_solution(start, z);
    }

    /// `x` is a combination of the search space that satisfies every
    /// constraint.
    pub open spec fn is_solution(self, x: Seq<usize>) -> bool {
        in_bounds(self.sizes, x) && self.solves(x)
    }

    /// With the constraints in order of depth, each reading only the
    /// dimensions up to its own depth, a search from the first combination
    /// on, with nothing found before, finds every solution there is and
    /// nothing else.
    pub proof fn lemma_search_finds_the_solutions(self, first: Machine)
        requires
            self.scheduled(),
            self.local(),
            first.live,
            first.position == origin(self.sizes.len()),
            in_bounds(self.sizes, first.position),
            first.cursor == start_cursor(),
            first.solved.len() == 0,
        ensures
            forall|x: Seq<usize>|
                self.is_solution(x) <==> #[trigger] self.settle(first).solved.contains(x),
    {
        self.lemma_search_finds_what_the_scan_finds(first);
        let found = self.settle(first).solved;
        assert(found =~= self.scan(first.position, true));
        assert forall|x: Seq<usize>| self.is_solution(x) implies #[trigger] found.contains(x) by {
            self.lemma_scan_from_origin_is_complete(x);
        }
        assert forall|x: Seq<usize>| #[trigger] found.contains(x) implies self.is_solution(x) by {
            let i = choose|i: int| 0 <= i < found.len() && found[i] == x;
            self.lemma_scan_finds_only_solutions(first.position, true, i);
        }
    }
}

} // verus!
