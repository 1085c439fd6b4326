//! Sizing a search space without overflow.
//!
//! The sizes of the dimensions are multiplied up from the last dimension to
//! the first. Where the product no longer fits the counting type, the space
//! is too large to size as a whole, and the products are kept in two parts:
//! those of the dimensions from the breaking point on, and those of the
//! dimensions before it.

use vstd::prelude::*;

verus! {

/// An unsigned integer type to count combinations in.
pub trait Counting: Copy + Sized {
    /// The number a value stands for.
    spec fn value(self) -> nat;

    /// The largest number the type holds.
    spec fn limit() -> nat;

    /// No value is past the limit.
    proof fn lemma_within_limit(self)
        ensures
            self.value() <= Self::limit(),
    ;

    /// The value one.
    fn one() -> (r: Self)
        ensures
            r.value() == 1,
    ;

    /// The value zero.
    fn zero() -> (r: Self)
        ensures
            r.value() == 0,
    ;

    /// The product of two values, where it fits the type.
    fn checked_mul(self, rhs: Self) -> (r: Option<Self>)
        ensures
            match r {
                Some(p) => p.value() == self.value() * rhs.value(),
                None => self.value() * rhs.value() > Self::limit(),
            },
    ;
}

impl Counting for u8 {
    open spec fn value(self) -> nat {
        self as nat
    }

    open spec fn limit() -> nat {
        u8::MAX as nat
    }

    proof fn lemma_within_limit(self) {
    }

    fn one() -> (r: Self) {
        1u8
    }

    fn zero() -> (r: Self) {
        0u8
    }

    fn checked_mul(self, rhs: Self) -> (r: Option<Self>) {
        u8::checked_mul(self, rhs)
    }
}

impl Counting for u16 {
    open spec fn value(self) -> nat {
        self as nat
    }

    open spec fn limit() -> nat {
        u16::MAX as nat
    }

    proof fn lemma_within_limit(self) {
    }

    fn one() -> (r: Self) {
        1u16
    }

    fn zero() -> (r: Self) {
        0u16
    }

    fn checked_mul(self, rhs: Self) -> (r: Option<Self>) {
        u16::checked_mul(self, rhs)
    }
}

impl Counting for u32 {
    open spec fn value(self) -> nat {
        self as nat
    }

    open spec fn limit() -> nat {
        u32::MAX as nat
    }

    proof fn lemma_within_limit(self) {
    }

    fn one() -> (r: Self) {
        1u32
    }

    fn zero() -> (r: Self) {
        0u32
    }

    fn checked_mul(self, rhs: Self) -> (r: Option<Self>) {
        u32::checked_mul(self, rhs)
    }
}

impl Counting for u64 {
    open spec fn value(self) -> nat {
        self as nat
    }

    open spec fn limit() -> nat {
        u64::MAX as nat
    }

    proof fn lemma_within_limit(self) {
    }

    fn one() -> (r: Self) {
        1u64
    }

    fn zero() -> (r: Self) {
        0u64
    }

    fn checked_mul(self, rhs: Self) -> (r: Option<Self>) {
        u64::checked_mul(self, rhs)
    }
}

impl Counting for u128 {
    open spec fn value(self) -> nat {
        self as nat
    }

    open spec fn limit() -> nat {
        u128::MAX as nat
    }

    proof fn lemma_within_limit(self) {
    }

    fn one() -> (r: Self) {
        1u128
    }

    fn zero() -> (r: Self) {
        0u128
    }

    fn checked_mul(self, rhs: Self) -> (r: Option<Self>) {
        u128::checked_mul(self, rhs)
    }
}

impl Counting for usize {
    open spec fn value(self) -> nat {
        self as nat
    }

    open spec fn limit() -> nat {
        usize::MAX as nat
    }

    proof fn lemma_within_limit(self) {
    }

    fn one() -> (r: Self) {
        1usize
    }

    fn zero() -> (r: Self) {
        0usize
    }

    fn checked_mul(self, rhs: Self) -> (r: Option<Self>) {
        usize::checked_mul(self, rhs)
    }
}

/// The numbers that a list of values stands for.
pub open spec fn values<T: Counting>(list: Seq<T>) -> Seq<nat> {
    Seq::new(list.len(), |i: int| list[i].value())
}

/// The product of the sizes from `from` up to, not including, `to`.
pub open spec fn product(sizes: Seq<nat>, from: int, to: int) -> nat
    decreases to - from,
{
    if from >= to {
        1
    } else {
        sizes[from] * product(sizes, from + 1, to)
    }
}

/// The breaking point among the first `upto` dimensions: one past the last
/// dimension from which the product up to the end no longer fits `limit`,
/// or zero when the product fits from every one of them.
pub open spec fn breakpoint(sizes: Seq<nat>, limit: nat, upto: int) -> int
    decreases upto,
{
    if upto <= 0 {
        0
    } else if product(sizes, upto - 1, sizes.len() as int) > limit {
        upto
    } else {
        breakpoint(sizes, limit, upto - 1)
    }
}

/// The product of the sizes from `from` up to `to`, set to zero from the
/// first dimension on, going down from `to`, at which it no longer fits
/// `limit`.
pub open spec fn capped_product(sizes: Seq<nat>, limit: nat, from: int, to: int) -> nat
    decreases to - from,
{
    if from >= to {
        1
    } else {
        let rest = capped_product(sizes, limit, from + 1, to);
        if rest * sizes[from] > limit {
            0
        } else {
            rest * sizes[from]
        }
    }
}

/// The size of the whole space: the product of all sizes where the product
/// fits from every dimension on, and nothing otherwise.
pub open spec fn total_product(sizes: Seq<nat>, limit: nat) -> Option<nat> {
    if breakpoint(sizes, limit, sizes.len() as int) == 0 {
        Some(product(sizes, 0, sizes.len() as int))
    } else {
        None
    }
}

/// The products after the breaking point. Without a breaking point there is
/// one entry for each dimension: the product of the sizes of the dimensions
/// after it. With one, the entries start at the breaking point: each is the
/// product of the sizes from its dimension on, and a last entry of one
/// follows.
pub open spec fn suffix_products(sizes: Seq<nat>, limit: nat) -> Seq<nat> {
    let n = sizes.len() as int;
    let bp = breakpoint(sizes, limit, n);
    let start = if bp == 0 {
        1
    } else {
        bp
    };
    Seq::new(
        if n == 0 {
            0
        } else {
            (n + 1 - start) as nat
        },
        |k: int| product(sizes, start + k, n),
    )
}

/// The products before the breaking point. Without a breaking point there
/// are none. With one, there is an entry for each dimension: before the
/// breaking point the capped product of the sizes between the dimension and
/// the breaking point, and zero from the breaking point on.
pub open spec fn prefix_products(sizes: Seq<nat>, limit: nat) -> Seq<nat> {
    let n = sizes.len() as int;
    let bp = breakpoint(sizes, limit, n);
    if bp == 0 {
        Seq::empty()
    } else {
        Seq::new(
            n as nat,
            |i: int|
                if i < bp {
                    capped_product(sizes, limit, i + 1, bp)
                } else {
                    0
                },
        )
    }
}

/// A product is the product of all but the last size, times the last size.
pub proof fn lemma_product_by_last(sizes: Seq<nat>, from: int, to: int)
    requires
        from < to,
    ensures
        product(sizes, from, to) == product(sizes, from, to - 1) * sizes[to - 1],
    decreases to - from,
{
    if from + 1 < to {
        lemma_product_by_last(sizes, from + 1, to);
        let head = sizes[from];
        let middle = product(sizes, from + 1, to - 1);
        let last = sizes[to - 1];
        assert(head * (middle * last) == (head * middle) * last) by (nonlinear_arith);
    } else {
        assert(product(sizes, from + 1, to) == 1);
        assert(product(sizes, from, to - 1) == 1);
        assert(sizes[from] * 1 == 1 * sizes[from]) by (nonlinear_arith);
    }
}

/// The breaking point lies among the dimensions looked at; the product from
/// the dimension before it does not fit, and from every later dimension
/// looked at it does.
pub proof fn lemma_breakpoint(sizes: Seq<nat>, limit: nat, upto: int)
    requires
        0 <= upto <= sizes.len(),
    ensures
        0 <= breakpoint(sizes, limit, upto) <= upto,
        breakpoint(sizes, limit, upto) > 0 ==> product(
            sizes,
            breakpoint(sizes, limit, upto) - 1,
            sizes.len() as int,
        ) > limit,
        forall|i: int|
            breakpoint(sizes, limit, upto) <= i < upto ==> #[trigger] product(
                sizes,
                i,
                sizes.len() as int,
            ) <= limit,
    decreases upto,
{
    if upto > 0 && product(sizes, upto - 1, sizes.len() as int) <= limit {
        lemma_breakpoint(sizes, limit, upto - 1);
    }
}

/// Where the product of all sizes does not fit, the space has no total
/// size.
pub proof fn lemma_overflow_has_no_total(sizes: Seq<nat>, limit: nat)
    requires
        limit >= 1,
        product(sizes, 0, sizes.len() as int) > limit,
    ensures
        total_product(sizes, limit) is None,
{
    lemma_breakpoint(sizes, limit, sizes.len() as int);
}

/// The values of a list in reverse order.
fn reversed<T: Copy>(list: &Vec<T>) -> (turned: Vec<T>)
    ensures
        turned@ == list@.reverse(),
{
    let mut turned: Vec<T> = Vec::new();
    let mut i: usize = list.len();
    while i > 0
        invariant
            i <= list@.len(),
            turned@.len() == list@.len() - i,
            forall|k: int| 0 <= k < turned@.len() ==> turned@[k] == list@[list@.len() - 1 - k],
        decreases i,
    {
        i -= 1;
        turned.push(list[i]);
    }
    assert(turned@ =~= list@.reverse());
    turned
}

/// Sizes a space whose dimensions have the given sizes.
///
/// Returns the size of the whole space where it fits the counting type, the
/// products before the breaking point, and the products after it.
pub fn commulative_products<T: Counting>(vectors: &Vec<T>) -> (sized: (Option<T>, Vec<T>, Vec<T>))
    ensures
        match sized.0 {
            Some(total) => total_product(values(vectors@), T::limit()) == Some(total.value()),
            None => total_product(values(vectors@), T::limit()) is None,
        },
        values(sized.1@) == prefix_products(values(vectors@), T::limit()),
        values(sized.2@) == suffix_products(values(vectors@), T::limit()),
        sized.1@.len() == prefix_products(values(vectors@), T::limit()).len(),
        sized.2@.len() == suffix_products(values(vectors@), T::limit()).len(),
        product(values(vectors@), 0, vectors@.len() as int) > T::limit() ==> sized.0 is None,
        forall|i: int| 0 <= i < sized.1@.len() ==> (#[trigger] sized.1@[i]).value() <= T::limit(),
        forall|i: int| 0 <= i < sized.2@.len() ==> (#[trigger] sized.2@[i]).value() <= T::limit(),
{
    let ghost sizes = values(vectors@);
    let ghost limit = T::limit();
    let n: usize = vectors.len();
    let mut total: T = T::one();
    proof {
        total.lemma_within_limit();
    }
    let mut after: Vec<T> = Vec::new();
    let mut before: Vec<T> = Vec::new();
    let mut bp: usize = 0;
    let mut i: usize = n;
    while i > 0 && bp == 0
        invariant
            i <= n,
            n == vectors@.len(),
            sizes == values(vectors@),
            limit == T::limit(),
            after@.len() == n - i,
            forall|k: int|
                0 <= k < after@.len() ==> (#[trigger] after@[k]).value() == product(
                    sizes,
                    n - k,
                    n as int,
                ),
            bp == 0 ==> total.value() == product(sizes, i as int, n as int) && breakpoint(
                sizes,
                limit,
                n as int,
            ) == breakpoint(sizes, limit, i as int),
            bp > 0 ==> bp == i + 1 && total.value() == 1 && breakpoint(sizes, limit, n as int)
                == bp,
        decreases i + if bp == 0 {
            1int
        } else {
            0int
        },
    {
        i -= 1;
        after.push(total);
        let size: T = vectors[i];
        proof {
            assert(sizes[i as int] == size.value());
            assert(product(sizes, i as int, n as int) == total.value() * size.value())
                by (nonlinear_arith)
                requires
                    product(sizes, i as int, n as int) == size.value() * total.value(),
            ;
        }
        match total.checked_mul(size) {
            Some(result) => {
                proof {
                    result.lemma_within_limit();
                }
                total = result;
            },
            None => {
                bp = i + 1;
                total = T::one();
            },
        }
    }
    proof {
        lemma_breakpoint(sizes, limit, n as int);
    }
    let mut i: usize = bp;
    while i > 0
        invariant
            i <= bp <= n,
            n == vectors@.len(),
            sizes == values(vectors@),
            limit == T::limit(),
            before@.len() == bp - i,
            bp == 0 ==> total.value() == product(sizes, 0, n as int),
            bp > 0 ==> total.value() == capped_product(sizes, limit, i as int, bp as int),
            forall|k: int|
                0 <= k < before@.len() ==> (#[trigger] before@[k]).value() == capped_product(
                    sizes,
                    limit,
                    bp - k,
                    bp as int,
                ),
        decreases i,
    {
        i -= 1;
        before.push(total);
        let size: T = vectors[i];
        proof {
            assert(sizes[i as int] == size.value());
        }
        match total.checked_mul(size) {
            Some(result) => {
                proof {
                    result.lemma_within_limit();
                }
                total = result;
            },
            None => {
                total = T::zero();
            },
        }
    }
    let after = reversed(&after);
    let mut before = reversed(&before);
    if before.len() > 0 {
        let zero: T = T::zero();
        let mut k: usize = 1;
        while k < after.len()
            invariant
                1 <= k,
                bp > 0,
                after@.len() == n - bp + 1,
                k <= after@.len(),
                before@.len() == bp + k - 1,
                zero.value() == 0,
                forall|j: int|
                    0 <= j < bp ==> (#[trigger] before@[j]).value() == capped_product(
                        sizes,
                        limit,
                        j + 1,
                        bp as int,
                    ),
                forall|j: int| bp <= j < before@.len() ==> (#[trigger] before@[j]).value() == 0,
            decreases after@.len() - k,
        {
            before.push(zero);
            k += 1;
        }
    }
    proof {
        assert(values(before@) =~= prefix_products(sizes, limit));
        assert(values(after@) =~= suffix_products(sizes, limit));
        if product(sizes, 0, n as int) > limit {
            lemma_overflow_has_no_total(sizes, limit);
        }
        assert forall|j: int| 0 <= j < before@.len() implies (#[trigger] before@[j]).value()
            <= T::limit() by {
            before@[j].lemma_within_limit();
        }
        assert forall|j: int| 0 <= j < after@.len() implies (#[trigger] after@[j]).value()
            <= T::limit() by {
            after@[j].lemma_within_limit();
        }
    }
    if bp == 0 {
        (Some(total), before, after)
    } else {
        (None, before, after)
    }
}

} // verus!
