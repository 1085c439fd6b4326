//! The constraint schedule: where the scan of the constraints resumes after
//! the counter has moved.
//!
//! Constraints are kept in order of depth. Two tables are derived from their
//! depths alone. The jump table sends a constraint to the first constraint
//! of its run of equal depths; the bad table sends a dimension to the first
//! constraint that reads it or a deeper one. The cursor is the scan's state,
//! and its three transitions say where it goes after a combination was
//! accepted, after a constraint passed, and after a constraint failed.

use crate::counter::Advance;
use vstd::prelude::*;

verus! {

/// The first position of the run of equal depths that position `j` lies in.
pub open spec fn run_start(depths: Seq<usize>, j: int) -> int
    decreases j,
{
    if j <= 0 {
        0
    } else if depths[j] == depths[j - 1] {
        run_start(depths, j - 1)
    } else {
        j
    }
}

/// The jump table: for each constraint the start of its run.
pub open spec fn jump_targets(depths: Seq<usize>) -> Seq<usize> {
    Seq::new(depths.len(), |j: int| run_start(depths, j) as usize)
}

/// The first position at or after `from` whose depth is at least `d`, or the
/// number of constraints when there is none.
pub open spec fn first_reaching(depths: Seq<usize>, d: int, from: int) -> int
    decreases depths.len() - from,
{
    if from >= depths.len() {
        depths.len() as int
    } else if depths[from] >= d {
        from
    } else {
        first_reaching(depths, d, from + 1)
    }
}

/// The largest of the first `k` depths, or -1 when `k` is zero.
pub open spec fn deepest(depths: Seq<usize>, k: int) -> int
    decreases k,
{
    if k <= 0 {
        -1
    } else if depths[k - 1] > deepest(depths, k - 1) {
        depths[k - 1] as int
    } else {
        deepest(depths, k - 1)
    }
}

/// The bad table: for each dimension up to the deepest constrained one, the
/// first constraint whose depth is at least that dimension.
pub open spec fn bad_targets(depths: Seq<usize>) -> Seq<usize> {
    Seq::new(
        (deepest(depths, depths.len() as int) + 1) as nat,
        |d: int| first_reaching(depths, d, 0) as usize,
    )
}

/// Depths never go down from one constraint to the next.
pub open spec fn ascending(depths: Seq<usize>) -> bool {
    forall|i: int, j: int| 0 <= i <= j < depths.len() ==> depths[i] <= depths[j]
}

/// The start of a run lies at or before the position, the whole stretch in
/// between has the position's depth, and the run cannot be extended to the
/// left.
pub proof fn lemma_run_start(depths: Seq<usize>, j: int)
    requires
        0 <= j < depths.len(),
    ensures
        0 <= run_start(depths, j) <= j,
        forall|i: int| run_start(depths, j) <= i <= j ==> depths[i] == depths[j],
        run_start(depths, j) == 0 || depths[run_start(depths, j) - 1] != depths[j],
    decreases j,
{
    if j > 0 && depths[j] == depths[j - 1] {
        lemma_run_start(depths, j - 1);
    }
}

/// What `first_reaching` finds is the first of its kind.
pub proof fn lemma_first_reaching(depths: Seq<usize>, d: int, from: int)
    requires
        0 <= from <= depths.len(),
    ensures
        from <= first_reaching(depths, d, from) <= depths.len(),
        forall|i: int| from <= i < first_reaching(depths, d, from) ==> depths[i] < d,
        first_reaching(depths, d, from) < depths.len() ==> depths[first_reaching(depths, d, from)]
            >= d,
    decreases depths.len() - from,
{
    if from < depths.len() && depths[from] < d {
        lemma_first_reaching(depths, d, from + 1);
    }
}

/// A position that is the first of its kind is what `first_reaching` finds.
pub proof fn lemma_first_reaching_is(depths: Seq<usize>, d: int, from: int, j: int)
    requires
        0 <= from <= j <= depths.len(),
        forall|i: int| from <= i < j ==> depths[i] < d,
        j < depths.len() ==> depths[j] >= d,
    ensures
        first_reaching(depths, d, from) == j,
{
    lemma_first_reaching(depths, d, from);
}

/// Every one of the first `k` depths is at most the deepest of them, and the
/// deepest is one of them.
pub proof fn lemma_deepest(depths: Seq<usize>, k: int)
    requires
        0 <= k <= depths.len(),
    ensures
        -1 <= deepest(depths, k),
        forall|i: int| 0 <= i < k ==> depths[i] <= deepest(depths, k),
        k > 0 ==> exists|i: int| 0 <= i < k && depths[i] == deepest(depths, k),
    decreases k,
{
    if k > 0 {
        lemma_deepest(depths, k - 1);
        if depths[k - 1] > deepest(depths, k - 1) {
            assert(depths[k - 1] == deepest(depths, k));
        } else if k - 1 > 0 {
            let i = choose|i: int| 0 <= i < k - 1 && depths[i] == deepest(depths, k - 1);
            assert(depths[i] == deepest(depths, k));
        } else {
            assert(depths[0] == deepest(depths, k));
        }
    }
}

/// The entries of both tables stay inside the list of constraints: a jump
/// target is at or before its own position, and a bad target names a
/// constraint.
pub proof fn lemma_targets_in_range(depths: Seq<usize>)
    ensures
        jump_targets(depths).len() == depths.len(),
        forall|j: int| 0 <= j < depths.len() ==> #[trigger] jump_targets(depths)[j] <= j,
        forall|d: int|
            0 <= d < bad_targets(depths).len() ==> #[trigger] bad_targets(depths)[d]
                < depths.len(),
{
    assert forall|j: int| 0 <= j < depths.len() implies #[trigger] jump_targets(depths)[j]
        <= j by {
        lemma_run_start(depths, j);
    }
    assert forall|d: int| 0 <= d < bad_targets(depths).len() implies #[trigger] bad_targets(
        depths,
    )[d] < depths.len() by {
        lemma_deepest(depths, depths.len() as int);
        lemma_first_reaching(depths, d, 0);
        let i = choose|i: int|
            0 <= i < depths.len() && depths[i] == deepest(depths, depths.len() as int);
        if first_reaching(depths, d, 0) >= depths.len() {
            assert(depths[i] < d);
        }
    }
}

/// The state of the scan over the constraints.
#[derive(Clone, Copy, Debug, PartialEq, Eq, Structural)]
pub struct Cursor {
    /// The constraint to evaluate next; the number of constraints once all
    /// of them have passed for the current combination.
    pub pos: usize,
    /// Set after a failure of a constraint that shares its depth with the
    /// one before it: the same constraint is tried again on the next
    /// combination, and only once it passes does the scan go back to the
    /// start of its run.
    pub pending: bool,
}

/// The cursor a search starts with: at the first constraint, nothing
/// pending.
pub open spec fn start_cursor() -> Cursor {
    Cursor { pos: 0, pending: false }
}

/// Where the scan resumes after a carry whose shallowest rolled-over
/// dimension is `depth`: at the first constraint that reads the dimension
/// carried into or a deeper one, past the last constraint when there is
/// none, and at the first constraint when `depth` names no dimension to
/// carry into.
pub open spec fn resume(bad: Seq<usize>, depth: usize, length: int) -> int {
    if depth == 0 {
        0
    } else if depth - 1 < bad.len() {
        bad[depth - 1] as int
    } else {
        length
    }
}

/// The cursor after the current combination was accepted and the counter
/// stepped on.
pub open spec fn accepted(
    cursor: Cursor,
    outcome: Advance,
    jump: Seq<usize>,
    bad: Seq<usize>,
) -> Cursor {
    match outcome {
        Advance::Next => Cursor {
            pos: if cursor.pos == 0 {
                0
            } else {
                jump[cursor.pos - 1]
            },
            pending: cursor.pending,
        },
        Advance::Carry(depth) => Cursor {
            pos: resume(bad, depth, jump.len() as int) as usize,
            pending: cursor.pending,
        },
        Advance::Exhausted => cursor,
    }
}

/// The cursor after the constraint under it passed.
pub open spec fn passed(cursor: Cursor, jump: Seq<usize>) -> Cursor {
    if cursor.pending {
        Cursor { pos: jump[cursor.pos as int], pending: false }
    } else {
        Cursor { pos: (cursor.pos + 1) as usize, pending: false }
    }
}

/// The cursor after the constraint under it failed and the counter skipped
/// the failing subtree.
pub open spec fn failed(
    cursor: Cursor,
    outcome: Advance,
    jump: Seq<usize>,
    bad: Seq<usize>,
) -> Cursor {
    match outcome {
        Advance::Next => if cursor.pos == 0 {
            Cursor { pos: jump[0], pending: cursor.pending }
        } else if jump[cursor.pos as int] == jump[cursor.pos - 1] {
            Cursor { pos: cursor.pos, pending: true }
        } else {
            Cursor { pos: jump[cursor.pos as int], pending: cursor.pending }
        },
        Advance::Carry(depth) => Cursor {
            pos: resume(bad, depth, jump.len() as int) as usize,
            pending: false,
        },
        Advance::Exhausted => cursor,
    }
}

/// How far the scan is from having passed every constraint: the number of
/// constraints still to pass, and a full round more while a retry is
/// pending. It goes down whenever a constraint passes.
pub open spec fn slack(cursor: Cursor, length: int) -> int {
    length - cursor.pos + if cursor.pending {
        length + 1
    } else {
        0
    }
}

/// With the tables of `depths`, a cursor inside the list of constraints
/// stays inside it under every transition, and a pass brings it closer to
/// the end of the scan.
pub proof fn lemma_cursor_stays_in_range(depths: Seq<usize>, cursor: Cursor, outcome: Advance)
    requires
        cursor.pos <= depths.len() <= usize::MAX,
    ensures
        accepted(cursor, outcome, jump_targets(depths), bad_targets(depths)).pos <= depths.len(),
        cursor.pos < depths.len() ==> {
            &&& passed(cursor, jump_targets(depths)).pos <= depths.len()
            &&& failed(cursor, outcome, jump_targets(depths), bad_targets(depths)).pos
                <= depths.len()
            &&& slack(passed(cursor, jump_targets(depths)), depths.len() as int) < slack(
                cursor,
                depths.len() as int,
            )
        },
{
    lemma_targets_in_range(depths);
    let jump = jump_targets(depths);
    let bad = bad_targets(depths);
    if cursor.pos > 0 {
        assert(jump[cursor.pos - 1] <= cursor.pos - 1);
    }
    if cursor.pos < depths.len() {
        assert(jump[cursor.pos as int] <= cursor.pos);
        assert(jump[0] <= 0);
    }
    match outcome {
        Advance::Carry(depth) => {
            if depth > 0 && depth - 1 < bad.len() {
                assert(bad[depth - 1] < depths.len());
            }
        },
        _ => {},
    }
}

impl Cursor {
    /// The cursor a search starts with.
    pub fn start() -> (cursor: Cursor)
        ensures
            cursor == start_cursor(),
    {
        Cursor { pos: 0, pending: false }
    }

    /// Where the scan resumes after a carry.
    fn resume_at(bad: &Vec<usize>, depth: usize, length: usize) -> (pos: usize)
        requires
            forall|d: int| 0 <= d < bad@.len() ==> bad@[d] <= length,
        ensures
            pos == resume(bad@, depth, length as int),
    {
        if depth == 0 {
            0
        } else if depth - 1 < bad.len() {
            bad[depth - 1]
        } else {
            length
        }
    }

    /// The transition taken once every constraint has passed: the
    /// combination was recorded and the counter stepped to the next one.
    pub fn after_accept(
        self,
        outcome: Advance,
        jump: &Vec<usize>,
        bad: &Vec<usize>,
    ) -> (next: Cursor)
        requires
            self.pos <= jump@.len(),
            forall|d: int| 0 <= d < bad@.len() ==> bad@[d] <= jump@.len(),
        ensures
            next == accepted(self, outcome, jump@, bad@),
    {
        match outcome {
            Advance::Next => Cursor {
                pos: if self.pos == 0 {
                    0
                } else {
                    jump[self.pos - 1]
                },
                pending: self.pending,
            },
            Advance::Carry(depth) => Cursor {
                pos: Self::resume_at(bad, depth, jump.len()),
                pending: self.pending,
            },
            Advance::Exhausted => self,
        }
    }

    /// The transition taken when the constraint under the cursor passed.
    pub fn after_pass(self, jump: &Vec<usize>) -> (next: Cursor)
        requires
            self.pos < jump@.len(),
        ensures
            next == passed(self, jump@),
    {
        let length: usize = jump.len();
        if self.pending {
            Cursor { pos: jump[self.pos], pending: false }
        } else {
            assert(self.pos < length);
            Cursor { pos: self.pos + 1, pending: false }
        }
    }

    /// The transition taken when the constraint under the cursor failed and
    /// the counter skipped the subtree below the failing prefix.
    pub fn after_fail(
        self,
        outcome: Advance,
        jump: &Vec<usize>,
        bad: &Vec<usize>,
    ) -> (next: Cursor)
        requires
            self.pos < jump@.len(),
            forall|d: int| 0 <= d < bad@.len() ==> bad@[d] <= jump@.len(),
        ensures
            next == failed(self, outcome, jump@, bad@),
    {
        match outcome {
            Advance::Next => {
                if self.pos == 0 {
                    Cursor { pos: jump[0], pending: self.pending }
                } else if jump[self.pos] == jump[self.pos - 1] {
                    Cursor { pos: self.pos, pending: true }
                } else {
                    Cursor { pos: jump[self.pos], pending: self.pending }
                }
            },
            Advance::Carry(depth) => Cursor {
                pos: Self::resume_at(bad, depth, jump.len()),
                pending: false,
            },
            Advance::Exhausted => self,
        }
    }
}

} // verus!
