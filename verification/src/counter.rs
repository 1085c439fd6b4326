//! The multi-index counter: a mixed-radix odometer over the dimension sizes.
//!
//! A position holds one digit per dimension; the last dimension varies
//! fastest. Advancing rolls a full digit back to zero and carries into the
//! dimension on its left, and a skip forces every digit from a given depth on
//! to roll over at once, which leaves a whole subtree of combinations behind
//! in a single move.

use vstd::prelude::*;

verus! {

/// What one advance of the counter did.
#[derive(Clone, Copy, Debug, PartialEq, Eq, Structural)]
pub enum Advance {
    /// The digit just before the requested depth moved up by one; nothing
    /// further to the left changed.
    Next,
    /// The carry went further left. The value is the shallowest dimension
    /// that rolled over to zero, so the digit that moved up by one sits at
    /// that depth minus one.
    Carry(usize),
    /// The carry ran past the first dimension: no combination is left.
    Exhausted,
}

/// The depth at which an advance starts: `depth`, cut down to the number of
/// dimensions.
pub open spec fn clamp_depth(depth: int, dimensions: int) -> int {
    if depth < dimensions {
        depth
    } else {
        dimensions
    }
}

/// The dimension whose digit moves up when the carry enters just below depth
/// `e`: the deepest dimension before `e` whose digit is not yet at its last
/// value, or -1 when there is none.
pub open spec fn landing(dims: Seq<usize>, x: Seq<usize>, e: int) -> int
    decreases e,
{
    if e <= 0 {
        -1
    } else if x[e - 1] + 1 < dims[e - 1] {
        e - 1
    } else {
        landing(dims, x, e - 1)
    }
}

/// `x` with the digit at `m` moved up by one and every deeper digit at zero.
pub open spec fn bumped(x: Seq<usize>, m: int) -> Seq<usize> {
    Seq::new(
        x.len(),
        |i: int|
            if i < m {
                x[i]
            } else if i == m {
                (x[i] + 1) as usize
            } else {
                0usize
            },
    )
}

/// The position with every digit at zero.
pub open spec fn origin(dimensions: nat) -> Seq<usize> {
    Seq::new(dimensions, |i: int| 0usize)
}

/// Every digit of `x` lies inside its dimension.
pub open spec fn in_bounds(dims: Seq<usize>, x: Seq<usize>) -> bool {
    &&& x.len() == dims.len()
    &&& forall|i: int| 0 <= i < dims.len() ==> x[i] < dims[i]
}

/// No dimension is empty.
pub open spec fn all_populated(dims: Seq<usize>) -> bool {
    forall|i: int| 0 <= i < dims.len() ==> dims[i] > 0
}

/// Where a skip at `depth` leaves a live counter that stood at `x`.
pub open spec fn skip_position(dims: Seq<usize>, x: Seq<usize>, depth: int) -> Seq<usize> {
    let m = landing(dims, x, clamp_depth(depth, dims.len() as int));
    if m < 0 {
        origin(dims.len())
    } else {
        bumped(x, m)
    }
}

/// What a skip at `depth` reports for a live counter that stood at `x`.
pub open spec fn skip_outcome(dims: Seq<usize>, x: Seq<usize>, depth: int) -> Advance {
    let e = clamp_depth(depth, dims.len() as int);
    let m = landing(dims, x, e);
    if m < 0 {
        Advance::Exhausted
    } else if m + 1 == e {
        Advance::Next
    } else {
        Advance::Carry((m + 1) as usize)
    }
}

/// The number of combinations of the first `k` dimensions.
pub open spec fn volume(dims: Seq<usize>, k: int) -> nat
    decreases k,
{
    if k <= 0 {
        1
    } else {
        volume(dims, k - 1) * (dims[k - 1] as nat)
    }
}

/// How many combinations of the first `k` dimensions come before the first
/// `k` digits of `x` in lexicographic order.
pub open spec fn rank(dims: Seq<usize>, x: Seq<usize>, k: int) -> nat
    decreases k,
{
    if k <= 0 {
        0
    } else {
        rank(dims, x, k - 1) * (dims[k - 1] as nat) + (x[k - 1] as nat)
    }
}

/// How many combinations a counter still has to offer, the current one
/// included.
pub open spec fn remaining(dims: Seq<usize>, x: Seq<usize>, live: bool) -> nat {
    if live {
        (volume(dims, dims.len() as int) - rank(dims, x, dims.len() as int)) as nat
    } else {
        0
    }
}

/// A position inside its bounds has a rank below the volume.
pub proof fn lemma_rank_below_volume(dims: Seq<usize>, x: Seq<usize>, k: int)
    requires
        in_bounds(dims, x),
        0 <= k <= dims.len(),
    ensures
        rank(dims, x, k) < volume(dims, k),
    decreases k,
{
    if k > 0 {
        lemma_rank_below_volume(dims, x, k - 1);
        let r = rank(dims, x, k - 1);
        let v = volume(dims, k - 1);
        let d = dims[k - 1] as nat;
        let c = x[k - 1] as nat;
        assert(r * d + c < v * d) by (nonlinear_arith)
            requires
                r < v,
                c < d,
        ;
    }
}

/// Moving one digit up and clearing the deeper ones moves the rank up.
pub proof fn lemma_bumped_rank(dims: Seq<usize>, x: Seq<usize>, m: int, k: int)
    requires
        in_bounds(dims, x),
        0 <= m < dims.len(),
        x[m] + 1 < dims[m],
        0 <= k <= dims.len(),
    ensures
        k <= m ==> rank(dims, bumped(x, m), k) == rank(dims, x, k),
        k > m ==> rank(dims, bumped(x, m), k) > rank(dims, x, k),
    decreases k,
{
    if k > 0 {
        lemma_bumped_rank(dims, x, m, k - 1);
        let y = bumped(x, m);
        let d = dims[k - 1] as nat;
        if k - 1 > m {
            let rx = rank(dims, x, k - 1);
            let ry = rank(dims, y, k - 1);
            let c = x[k - 1] as nat;
            assert(ry * d > rx * d + c) by (nonlinear_arith)
                requires
                    ry > rx,
                    c < d,
            ;
        }
    }
}

/// The dimension a carry lands in lies before the depth it entered at, has
/// room for one more, and every dimension between the two is at its last
/// value.
pub proof fn lemma_landing(dims: Seq<usize>, x: Seq<usize>, e: int)
    requires
        0 <= e <= dims.len(),
        x.len() == dims.len(),
    ensures
        -1 <= landing(dims, x, e) < e,
        landing(dims, x, e) >= 0 ==> x[landing(dims, x, e)] + 1 < dims[landing(dims, x, e)],
        forall|i: int| landing(dims, x, e) < i < e ==> x[i] + 1 >= #[trigger] dims[i],
    decreases e,
{
    if e > 0 && !(x[e - 1] + 1 < dims[e - 1]) {
        lemma_landing(dims, x, e - 1);
    }
}

/// A dimension before `e` that has room for one more, with every dimension
/// between it and `e` at its last value, is where the carry lands; and the
/// carry runs out when every dimension before `e` is at its last value.
pub proof fn lemma_landing_is(dims: Seq<usize>, x: Seq<usize>, e: int, m: int)
    requires
        0 <= e <= dims.len(),
        x.len() == dims.len(),
        -1 <= m < e,
        m >= 0 ==> x[m] + 1 < dims[m],
        forall|i: int| m < i < e ==> x[i] + 1 >= #[trigger] dims[i],
    ensures
        landing(dims, x, e) == m,
    decreases e,
{
    if e > 0 && m < e - 1 {
        assert(x[e - 1] + 1 >= dims[e - 1]);
        lemma_landing_is(dims, x, e - 1, m);
    }
}

/// Two positions agree on their first `k` digits.
pub open spec fn same_prefix(a: Seq<usize>, b: Seq<usize>, k: int) -> bool {
    forall|i: int| 0 <= i < k ==> a[i] == b[i]
}

/// A skip from a position inside its bounds lands inside the bounds unless
/// it exhausts the counter, leaves the digits before the one it moved as
/// they were, and leaves fewer combinations to come.
pub proof fn lemma_skip(dims: Seq<usize>, x: Seq<usize>, depth: int)
    requires
        in_bounds(dims, x),
        0 <= depth,
    ensures
        skip_position(dims, x, depth).len() == x.len(),
        skip_outcome(dims, x, depth) != Advance::Exhausted ==> {
            &&& in_bounds(dims, skip_position(dims, x, depth))
            &&& 0 <= landing(dims, x, clamp_depth(depth, dims.len() as int)) < clamp_depth(
                depth,
                dims.len() as int,
            )
            &&& same_prefix(
                x,
                skip_position(dims, x, depth),
                landing(dims, x, clamp_depth(depth, dims.len() as int)),
            )
        },
        skip_outcome(dims, x, depth) == Advance::Exhausted <==> landing(
            dims,
            x,
            clamp_depth(depth, dims.len() as int),
        ) < 0,
        remaining(dims, skip_position(dims, x, depth), skip_outcome(dims, x, depth) != Advance::Exhausted)
            < remaining(dims, x, true),
{
    let e = clamp_depth(depth, dims.len() as int);
    let m = landing(dims, x, e);
    lemma_landing(dims, x, e);
    lemma_rank_below_volume(dims, x, dims.len() as int);
    if m >= 0 {
        let y = bumped(x, m);
        lemma_bumped_rank(dims, x, m, dims.len() as int);
        assert(in_bounds(dims, y));
        lemma_rank_below_volume(dims, y, dims.len() as int);
    }
}

/// Two positions inside the bounds with the same rank are the same.
pub proof fn lemma_rank_tells_apart(dims: Seq<usize>, x: Seq<usize>, z: Seq<usize>, k: int)
    requires
        in_bounds(dims, x),
        in_bounds(dims, z),
        0 <= k <= dims.len(),
        rank(dims, x, k) == rank(dims, z, k),
    ensures
        same_prefix(x, z, k),
    decreases k,
{
    if k > 0 {
        let a = rank(dims, x, k - 1);
        let b = rank(dims, z, k - 1);
        let d = dims[k - 1] as nat;
        let p = x[k - 1] as nat;
        let q = z[k - 1] as nat;
        assert(a == b && p == q) by (nonlinear_arith)
            requires
                a * d + p == b * d + q,
                p < d,
                q < d,
        ;
        lemma_rank_tells_apart(dims, x, z, k - 1);
    }
}

/// A plain step moves the rank up by exactly one.
pub proof fn lemma_step_rank(dims: Seq<usize>, x: Seq<usize>, k: int)
    requires
        in_bounds(dims, x),
        landing(dims, x, dims.len() as int) >= 0,
        0 <= k <= dims.len(),
    ensures
        rank(dims, bumped(x, landing(dims, x, dims.len() as int)), k) == rank(dims, x, k) + if k
            > landing(dims, x, dims.len() as int) {
            1nat
        } else {
            0nat
        },
    decreases k,
{
    let m = landing(dims, x, dims.len() as int);
    lemma_landing(dims, x, dims.len() as int);
    if k > 0 {
        lemma_step_rank(dims, x, k - 1);
        let y = bumped(x, m);
        if k - 1 > m {
            let a = rank(dims, x, k - 1);
            let d = dims[k - 1] as nat;
            assert(x[k - 1] + 1 >= dims[k - 1]);
            assert((a + 1) * d == a * d + d) by (nonlinear_arith);
        }
    }
}

/// A position with no digit above the digit of another has no higher rank.
pub proof fn lemma_rank_of_smaller_digits(dims: Seq<usize>, x: Seq<usize>, z: Seq<usize>, k: int)
    requires
        x.len() == dims.len(),
        z.len() == dims.len(),
        0 <= k <= dims.len(),
        forall|i: int| 0 <= i < k ==> z[i] <= x[i],
    ensures
        rank(dims, z, k) <= rank(dims, x, k),
    decreases k,
{
    if k > 0 {
        lemma_rank_of_smaller_digits(dims, x, z, k - 1);
        let a = rank(dims, z, k - 1);
        let b = rank(dims, x, k - 1);
        let d = dims[k - 1] as nat;
        assert(a * d <= b * d) by (nonlinear_arith)
            requires
                a <= b,
        ;
    }
}

/// Where a skip lands differs from where it started on a digit before the
/// depth of the skip.
pub proof fn lemma_skip_leaves_the_prefix(dims: Seq<usize>, x: Seq<usize>, depth: int)
    requires
        in_bounds(dims, x),
        0 <= depth,
        skip_outcome(dims, x, depth) != Advance::Exhausted,
    ensures
        !same_prefix(x, skip_position(dims, x, depth), clamp_depth(depth, dims.len() as int)),
{
    let e = clamp_depth(depth, dims.len() as int);
    let m = landing(dims, x, e);
    lemma_landing(dims, x, e);
    assert(skip_position(dims, x, depth)[m] != x[m]);
}

/// A skip leaves behind the subtree below the prefix and nothing else:
/// every position inside the bounds that ranks from `x` on and before
/// where the skip lands, or anywhere from `x` on when the skip exhausts the
/// counter, shares with `x` the digits before the depth of the skip.
pub proof fn lemma_skip_leaves_the_subtree(
    dims: Seq<usize>,
    x: Seq<usize>,
    depth: int,
    z: Seq<usize>,
)
    requires
        in_bounds(dims, x),
        in_bounds(dims, z),
        0 <= depth,
        rank(dims, x, dims.len() as int) <= rank(dims, z, dims.len() as int),
        skip_outcome(dims, x, depth) != Advance::Exhausted ==> rank(dims, z, dims.len() as int)
            < rank(dims, skip_position(dims, x, depth), dims.len() as int),
    ensures
        same_prefix(x, z, clamp_depth(depth, dims.len() as int)),
    decreases rank(dims, z, dims.len() as int) - rank(dims, x, dims.len() as int),
{
    let all = dims.len() as int;
    let e = clamp_depth(depth, all);
    let m = landing(dims, x, e);
    if rank(dims, x, all) == rank(dims, z, all) {
        lemma_rank_tells_apart(dims, x, z, all);
    } else {
        let step = landing(dims, x, all);
        lemma_landing(dims, x, all);
        lemma_landing(dims, x, e);
        if step < 0 {
            assert forall|i: int| 0 <= i < all implies z[i] <= x[i] by {
                assert(x[i] + 1 >= dims[i]);
            }
            lemma_rank_of_smaller_digits(dims, x, z, all);
        } else {
            let next = bumped(x, step);
            lemma_step_rank(dims, x, all);
            lemma_skip(dims, x, all);
            if step < e {
                lemma_landing_is(dims, x, e, step);
                assert(skip_position(dims, x, depth) =~= next);
            } else {
                assert forall|i: int| m < i < e implies next[i] + 1 >= #[trigger] dims[i] by {
                    assert(x[i] + 1 >= dims[i]);
                }
                lemma_landing_is(dims, next, e, m);
                assert(skip_position(dims, next, depth) =~= skip_position(dims, x, depth));
                lemma_skip_leaves_the_subtree(dims, next, depth, z);
            }
        }
    }
}

/// A lexicographic counter over the Cartesian product of dimensions of the
/// given sizes.
#[derive(Debug, Clone)]
pub struct MultiIndexCounter {
    dims: Vec<usize>,
    index: Vec<usize>,
    live: bool,
}

impl MultiIndexCounter {
    /// The size of each dimension.
    pub closed spec fn sizes(&self) -> Seq<usize> {
        self.dims@
    }

    /// The current digit of each dimension.
    pub closed spec fn position(&self) -> Seq<usize> {
        self.index@
    }

    /// Whether the current position is a combination not yet left behind.
    pub closed spec fn live(&self) -> bool {
        self.live
    }

    /// One digit per dimension, and while the counter is live every digit
    /// lies inside its dimension.
    pub open spec fn wf(&self) -> bool {
        &&& self.position().len() == self.sizes().len()
        &&& self.live() ==> in_bounds(self.sizes(), self.position())
    }

    /// The combinations still to come, the current one included.
    pub open spec fn remaining(&self) -> nat {
        remaining(self.sizes(), self.position(), self.live())
    }

    /// A counter at the first combination of the given dimensions. It is
    /// live unless one of the dimensions is empty.
    pub fn new(dims: &Vec<usize>) -> (counter: Self)
        ensures
            counter.wf(),
            counter.sizes() == dims@,
            counter.position() == origin(dims@.len()),
            counter.live() == all_populated(dims@),
    {
        let mut sizes: Vec<usize> = Vec::new();
        let mut index: Vec<usize> = Vec::new();
        let mut live = true;
        let mut i: usize = 0;
        while i < dims.len()
            invariant
                i <= dims.len(),
                sizes@ == dims@.take(i as int),
                index@ == origin(i as nat),
                live == all_populated(dims@.take(i as int)),
            decreases dims.len() - i,
        {
            let d: usize = dims[i];
            if d == 0 {
                live = false;
            }
            sizes.push(d);
            index.push(0);
            proof {
                let before = dims@.take(i as int);
                let after = dims@.take(i + 1);
                assert(sizes@ == after);
                assert(index@ == origin((i + 1) as nat));
                assert(after[i as int] == d);
                assert(forall|j: int| 0 <= j < i ==> before[j] == after[j]);
                if all_populated(after) {
                    assert forall|j: int| 0 <= j < before.len() implies before[j] > 0 by {
                        assert(after[j] > 0);
                    }
                }
            }
            i += 1;
        }
        proof {
            assert(dims@.take(dims.len() as int) == dims@);
        }
        MultiIndexCounter { dims: sizes, index, live }
    }

    /// Whether a combination is left to visit.
    pub fn check(&self) -> (more: bool)
        ensures
            more == self.live(),
    {
        self.live
    }

    /// The current position, one digit per dimension.
    pub fn get(&self) -> (position: &Vec<usize>)
        ensures
            position@ == self.position(),
    {
        &self.index
    }

    /// The size of each dimension, in order.
    pub fn dimensions(&self) -> (sizes: &Vec<usize>)
        ensures
            sizes@ == self.sizes(),
    {
        &self.dims
    }

    /// Moves to the next combination in lexicographic order.
    pub fn inc(&mut self) -> (outcome: Advance)
        requires
            old(self).wf(),
        ensures
            final(self).wf(),
            final(self).sizes() == old(self).sizes(),
            old(self).live() ==> {
                &&& final(self).position() == skip_position(
                    old(self).sizes(),
                    old(self).position(),
                    old(self).sizes().len() as int,
                )
                &&& outcome == skip_outcome(
                    old(self).sizes(),
                    old(self).position(),
                    old(self).sizes().len() as int,
                )
            },
            !old(self).live() ==> final(self).position() == old(self).position() && outcome
                == Advance::Exhausted,
            final(self).live() == (outcome != Advance::Exhausted),
            old(self).live() ==> final(self).remaining() < old(self).remaining(),
    {
        let depth: usize = self.dims.len();
        self.inc_skip(depth)
    }

    /// Leaves behind every combination that agrees with the current one on
    /// the dimensions before `depth`, and moves to the first one after them.
    /// A depth past the last dimension counts as the number of dimensions, so
    /// that the move is a plain step; at depth zero nothing is left.
    pub fn inc_skip(&mut self, depth: usize) -> (outcome: Advance)
        requires
            old(self).wf(),
        ensures
            final(self).wf(),
            final(self).sizes() == old(self).sizes(),
            old(self).live() ==> {
                &&& final(self).position() == skip_position(
                    old(self).sizes(),
                    old(self).position(),
                    depth as int,
                )
                &&& outcome == skip_outcome(old(self).sizes(), old(self).position(), depth as int)
            },
            !old(self).live() ==> final(self).position() == old(self).position() && outcome
                == Advance::Exhausted,
            final(self).live() == (outcome != Advance::Exhausted),
            old(self).live() ==> final(self).remaining() < old(self).remaining(),
    {
        if !self.live {
            return Advance::Exhausted;
        }
        let n: usize = self.dims.len();
        let e: usize = if depth < n {
            depth
        } else {
            n
        };
        let ghost dims = self.dims@;
        let ghost x = self.index@;
        proof {
            lemma_landing(dims, x, e as int);
            lemma_rank_below_volume(dims, x, n as int);
        }
        let mut i: usize = e;
        while i < n
            invariant
                e <= i <= n,
                n == dims.len(),
                dims == old(self).sizes(),
                x == old(self).position(),
                x.len() == n,
                old(self).live(),
                self.dims@ == dims,
                self.live,
                self.index@.len() == n,
                forall|j: int| 0 <= j < e ==> self.index@[j] == x[j],
                forall|j: int| e <= j < i ==> self.index@[j] == 0,
            decreases n - i,
        {
            self.index.set(i, 0);
            i += 1;
        }
        let mut d: usize = e;
        while d > 0
            invariant
                d <= e <= n,
                n == dims.len(),
                e == clamp_depth(depth as int, n as int),
                dims == old(self).sizes(),
                x == old(self).position(),
                old(self).live(),
                in_bounds(dims, x),
                self.dims@ == dims,
                self.live,
                self.index@.len() == n,
                forall|j: int| 0 <= j < d ==> self.index@[j] == x[j],
                forall|j: int| d <= j < n ==> self.index@[j] == 0,
                landing(dims, x, e as int) == landing(dims, x, d as int),
            decreases d,
        {
            d -= 1;
            let digit: usize = self.index[d];
            if digit + 1 < self.dims[d] {
                self.index.set(d, digit + 1);
                proof {
                    assert(landing(dims, x, e as int) == d);
                    assert(self.index@ == bumped(x, d as int));
                    lemma_bumped_rank(dims, x, d as int, n as int);
                    lemma_rank_below_volume(dims, self.index@, n as int);
                }
                if d + 1 == e {
                    return Advance::Next;
                } else {
                    return Advance::Carry(d + 1);
                }
            }
            self.index.set(d, 0);
        }
        self.live = false;
        proof {
            assert(self.index@ == origin(n as nat));
        }
        Advance::Exhausted
    }
}

} // verus!
