//! An array-backed segment tree: range-reduce queries and point updates in
//! logarithmic time over a pluggable associative combine operation.

use crate::math::lemma_log2_ceil_monotone;
use crate::math::lemma_log2_ceil_unique;
use crate::math::lemma_pow2_log2_ceil_bound;
use crate::math::lemma_pow2_lt_implies_exp_lt;
use crate::math::lemma_pow2_zero;
use crate::math::log2_ceil;
use vstd::arithmetic::power2::lemma_pow2_pos;
use vstd::arithmetic::power2::lemma_pow2_strictly_increases;
use vstd::arithmetic::power2::lemma_pow2_unfold;
use vstd::arithmetic::power2::pow2;
use vstd::prelude::*;

verus! {

/// The combine capability a value type supplies: an associative binary
/// operation together with its identity element.
///
/// `spec_reduce` and `spec_identity` are the mathematical meaning of the two
/// executable operations; the two proof obligations make every implementor
/// show associativity and the identity laws, which is what lets a tree-shaped
/// evaluation order return the same result as a flat left-to-right reduce.
pub trait Reducer: Sized {
    /// What `reduce` computes.
    spec fn spec_reduce(self, other: Self) -> Self;

    /// What `identity` returns.
    spec fn spec_identity() -> Self;

    /// The combine operation is associative.
    proof fn lemma_reduce_associative(a: Self, b: Self, c: Self)
        ensures
            a.spec_reduce(b).spec_reduce(c) == a.spec_reduce(b.spec_reduce(c)),
    ;

    /// The identity element is neutral on both sides.
    proof fn lemma_identity(x: Self)
        ensures
            x.spec_reduce(Self::spec_identity()) == x,
            Self::spec_identity().spec_reduce(x) == x,
    ;

    /// Combine two values.
    fn reduce(&self, other: Self) -> (r: Self)
        ensures
            r == self.spec_reduce(other),
    ;

    /// The neutral element, used to pad unused storage slots and as the
    /// contribution of a subrange that lies outside a query range.
    fn identity() -> (r: Self)
        ensures
            r == Self::spec_identity(),
    ;

    /// An exact copy of the value. The tree stores owned values, so it needs
    /// a copy whose equality to the original is known.
    fn dup(&self) -> (r: Self)
        ensures
            r == *self,
    ;
}

/// How an operation on the tree can fail.
#[derive(Clone, Copy, Debug, PartialEq, Eq, Structural)]
pub enum SegTreeError {
    /// A range with `start > end` arose where a non-empty one was owed:
    /// a structural violation, never caused by the caller.
    InvalidRange,
    /// A query or update position lies outside the tree's elements, or a
    /// query range has its bounds crossed.
    OutOfRange,
}

/// The flat left-to-right reduce of a whole sequence: the identity for the
/// empty sequence, else every element combined in order.
pub open spec fn seq_reduce<T: Reducer>(s: Seq<T>) -> T
    decreases s.len(),
{
    if s.len() == 0 {
        T::spec_identity()
    } else {
        seq_reduce(s.drop_last()).spec_reduce(s.last())
    }
}

/// The midpoint at which a range `[start, end]` is split. Build, query and
/// update all split with this same expression, so a node index always
/// denotes the same range in all three.
pub open spec fn spec_mid(start: int, end: int) -> int {
    start + (end - start) / 2
}

/// The value a node covering `[start, end]` holds: the single element for a
/// leaf, else the combine of its two children's values, split at the
/// midpoint. This is the grouping the tree's shape imposes.
pub open spec fn range_combine<T: Reducer>(elems: Seq<T>, start: int, end: int) -> T
    decreases end - start,
        when start <= end
{
    if start == end {
        elems[start]
    } else {
        range_combine(elems, start, spec_mid(start, end)).spec_reduce(
            range_combine(elems, spec_mid(start, end) + 1, end),
        )
    }
}

/// The subtree rooted at flat index `i`, covering `[start, end]`, is laid
/// out correctly in `storage`: every node's slot is in bounds and holds the
/// combine of the elements its range covers, with children at `2i+1` and
/// `2i+2`.
pub open spec fn node_correct<T: Reducer>(
    storage: Seq<T>,
    elems: Seq<T>,
    i: int,
    start: int,
    end: int,
) -> bool
    decreases end - start,
        when start <= end
{
    &&& 0 <= i < storage.len()
    &&& 0 <= start <= end < elems.len()
    &&& storage[i] == range_combine(elems, start, end)
    &&& (start < end ==> {
        &&& node_correct(storage, elems, 2 * i + 1, start, spec_mid(start, end))
        &&& node_correct(storage, elems, 2 * i + 2, spec_mid(start, end) + 1, end)
    })
}

/// Whether flat index `j` is one of the slots the subtree at index `i`
/// covering `[start, end]` actually uses. Slots outside every active subtree
/// are padding and keep the identity value.
pub open spec fn in_active(j: int, i: int, start: int, end: int) -> bool
    decreases end - start,
        when start <= end
{
    if start == end {
        j == i
    } else {
        ||| j == i
        ||| in_active(j, 2 * i + 1, start, spec_mid(start, end))
        ||| in_active(j, 2 * i + 2, spec_mid(start, end) + 1, end)
    }
}

/// Whether flat index `j` lies in the (full, shape-only) subtree under index
/// `i`: `j == i`, or `j`'s chain of parents `(j-1)/2` reaches `i`.
pub open spec fn is_descendant(j: int, i: int) -> bool
    decreases j,
        when j >= 0
{
    if j == i {
        true
    } else if j < 1 {
        false
    } else {
        is_descendant((j - 1) / 2, i)
    }
}

proof fn lemma_descendant_ge(j: int, i: int)
    requires
        j >= 0,
        i >= 0,
        is_descendant(j, i),
    ensures
        j >= i,
    decreases j,
{
    if j != i {
        lemma_descendant_ge((j - 1) / 2, i);
    }
}

proof fn lemma_descendant_trans(j: int, c: int, i: int)
    requires
        j >= 0,
        c >= 0,
        is_descendant(j, c),
        is_descendant(c, i),
    ensures
        is_descendant(j, i),
    decreases j,
{
    if j != c {
        lemma_descendant_trans((j - 1) / 2, c, i);
    }
}

/// No slot lies under both children of one node: the two subtrees of `i`
/// occupy disjoint parts of the flat storage.
proof fn lemma_children_disjoint(j: int, i: int)
    requires
        j >= 0,
        i >= 0,
        is_descendant(j, 2 * i + 1),
    ensures
        !is_descendant(j, 2 * i + 2),
    decreases j,
{
    if is_descendant(j, 2 * i + 2) {
        if j == 2 * i + 1 {
            lemma_descendant_ge(j, 2 * i + 2);
        } else if j == 2 * i + 2 {
            lemma_descendant_ge((j - 1) / 2, 2 * i + 1);
        } else {
            lemma_children_disjoint((j - 1) / 2, i);
        }
    }
}

/// Every active slot of a subtree lies under its root in the shape-only
/// sense.
proof fn lemma_active_is_descendant(j: int, i: int, start: int, end: int)
    requires
        i >= 0,
        0 <= start <= end,
        in_active(j, i, start, end),
    ensures
        is_descendant(j, i),
    decreases end - start,
{
    if start == end {
    } else if j == i {
    } else {
        let mid = spec_mid(start, end);
        assert(is_descendant(i, i));
        assert(is_descendant(2 * i + 1, i));
        assert(is_descendant(2 * i + 2, i));
        if in_active(j, 2 * i + 1, start, mid) {
            lemma_active_nonneg(j, 2 * i + 1, start, mid);
            lemma_active_is_descendant(j, 2 * i + 1, start, mid);
            lemma_descendant_trans(j, 2 * i + 1, i);
        } else {
            lemma_active_nonneg(j, 2 * i + 2, mid + 1, end);
            lemma_active_is_descendant(j, 2 * i + 2, mid + 1, end);
            lemma_descendant_trans(j, 2 * i + 2, i);
        }
    }
}

/// Active slots are never negative indices.
proof fn lemma_active_nonneg(j: int, i: int, start: int, end: int)
    requires
        i >= 0,
        0 <= start <= end,
        in_active(j, i, start, end),
    ensures
        j >= 0,
    decreases end - start,
{
    if start < end && j != i {
        let mid = spec_mid(start, end);
        if in_active(j, 2 * i + 1, start, mid) {
            lemma_active_nonneg(j, 2 * i + 1, start, mid);
        } else {
            lemma_active_nonneg(j, 2 * i + 2, mid + 1, end);
        }
    }
}

/// `node_correct` reads only the subtree's active slots: two storages that
/// agree there satisfy it together.
proof fn lemma_node_correct_frame<T: Reducer>(
    st1: Seq<T>,
    st2: Seq<T>,
    elems: Seq<T>,
    i: int,
    start: int,
    end: int,
)
    requires
        0 <= start <= end,
        node_correct(st1, elems, i, start, end),
        st2.len() == st1.len(),
        forall|j: int| in_active(j, i, start, end) ==> st2[j] == st1[j],
    ensures
        node_correct(st2, elems, i, start, end),
    decreases end - start,
{
    assert(in_active(i, i, start, end));
    if start < end {
        let mid = spec_mid(start, end);
        assert forall|j: int| in_active(j, 2 * i + 1, start, mid) implies st2[j] == st1[j] by {
            assert(in_active(j, i, start, end));
        }
        assert forall|j: int| in_active(j, 2 * i + 2, mid + 1, end) implies st2[j] == st1[j] by {
            assert(in_active(j, i, start, end));
        }
        lemma_node_correct_frame(st1, st2, elems, 2 * i + 1, start, mid);
        lemma_node_correct_frame(st1, st2, elems, 2 * i + 2, mid + 1, end);
    }
}

/// In a correctly laid out subtree, every active slot is inside the storage.
proof fn lemma_active_in_bounds<T: Reducer>(
    storage: Seq<T>,
    elems: Seq<T>,
    j: int,
    i: int,
    start: int,
    end: int,
)
    requires
        0 <= start <= end,
        node_correct(storage, elems, i, start, end),
        in_active(j, i, start, end),
    ensures
        0 <= j < storage.len(),
    decreases end - start,
{
    if start < end && j != i {
        let mid = spec_mid(start, end);
        if in_active(j, 2 * i + 1, start, mid) {
            lemma_active_in_bounds(storage, elems, j, 2 * i + 1, start, mid);
        } else {
            lemma_active_in_bounds(storage, elems, j, 2 * i + 2, mid + 1, end);
        }
    }
}

/// `range_combine` reads only the elements of its range.
proof fn lemma_range_combine_congruence<T: Reducer>(e1: Seq<T>, e2: Seq<T>, start: int, end: int)
    requires
        0 <= start <= end < e1.len(),
        e2.len() == e1.len(),
        forall|k: int| start <= k <= end ==> e2[k] == e1[k],
    ensures
        range_combine(e2, start, end) == range_combine(e1, start, end),
    decreases end - start,
{
    if start < end {
        let mid = spec_mid(start, end);
        lemma_range_combine_congruence(e1, e2, start, mid);
        lemma_range_combine_congruence(e1, e2, mid + 1, end);
    }
}

/// `node_correct` reads only the elements of its range.
proof fn lemma_node_correct_congruence<T: Reducer>(
    storage: Seq<T>,
    e1: Seq<T>,
    e2: Seq<T>,
    i: int,
    start: int,
    end: int,
)
    requires
        0 <= start <= end,
        node_correct(storage, e1, i, start, end),
        e2.len() == e1.len(),
        forall|k: int| start <= k <= end ==> e2[k] == e1[k],
    ensures
        node_correct(storage, e2, i, start, end),
    decreases end - start,
{
    lemma_range_combine_congruence(e1, e2, start, end);
    if start < end {
        let mid = spec_mid(start, end);
        lemma_node_correct_congruence(storage, e1, e2, 2 * i + 1, start, mid);
        lemma_node_correct_congruence(storage, e1, e2, 2 * i + 2, mid + 1, end);
    }
}

/// A flat reduce distributes over concatenation: reducing two pieces and
/// combining the results equals reducing the whole. This is where the
/// associativity and identity laws of `Reducer` do their work.
pub proof fn lemma_seq_reduce_concat<T: Reducer>(a: Seq<T>, b: Seq<T>)
    ensures
        seq_reduce(a + b) == seq_reduce(a).spec_reduce(seq_reduce(b)),
    decreases b.len(),
{
    if b.len() == 0 {
        assert(a + b =~= a);
        T::lemma_identity(seq_reduce(a));
    } else {
        let x = b.last();
        assert((a + b).last() == x);
        assert((a + b).drop_last() =~= a + b.drop_last());
        lemma_seq_reduce_concat(a, b.drop_last());
        T::lemma_reduce_associative(seq_reduce(a), seq_reduce(b.drop_last()), x);
    }
}

/// The tree-shaped grouping equals the flat left-to-right reduce of the same
/// elements: the observable result is independent of the tree's shape.
pub proof fn lemma_range_combine_is_seq_reduce<T: Reducer>(elems: Seq<T>, start: int, end: int)
    requires
        0 <= start <= end < elems.len(),
    ensures
        range_combine(elems, start, end) == seq_reduce(elems.subrange(start, end + 1)),
    decreases end - start,
{
    if start == end {
        let s = elems.subrange(start, end + 1);
        assert(s.last() == elems[start]);
        assert(s.drop_last() =~= Seq::<T>::empty());
        assert(seq_reduce(Seq::<T>::empty()) == T::spec_identity());
        assert(seq_reduce(s) == seq_reduce(s.drop_last()).spec_reduce(s.last()));
        T::lemma_identity(elems[start]);
    } else {
        let mid = spec_mid(start, end);
        lemma_range_combine_is_seq_reduce(elems, start, mid);
        lemma_range_combine_is_seq_reduce(elems, mid + 1, end);
        lemma_seq_reduce_concat(elems.subrange(start, mid + 1), elems.subrange(mid + 1, end + 1));
        assert(elems.subrange(start, mid + 1) + elems.subrange(mid + 1, end + 1) =~= elems.subrange(
            start,
            end + 1,
        ));
    }
}

/// The elements a node covering `[start, end]` contributes to a query for
/// `[from, to]`: the part of the node's range that lies inside the query
/// range, empty when the two do not overlap.
pub open spec fn range_clip<T>(elems: Seq<T>, start: int, end: int, from: int, to: int) -> Seq<T> {
    let lo = if from > start {
        from
    } else {
        start
    };
    let hi = if to < end {
        to
    } else {
        end
    };
    if lo <= hi {
        elems.subrange(lo, hi + 1)
    } else {
        Seq::empty()
    }
}

/// All slots outside the active tree over `n` elements hold the identity:
/// the padding that rounds the storage up to a complete binary tree.
pub open spec fn padding_is_identity<T: Reducer>(storage: Seq<T>, n: int) -> bool {
    forall|j: int|
        0 <= j < storage.len() && !in_active(j, 0, 0, n - 1) ==> storage[j] == T::spec_identity()
}

/// An array-backed segment tree over elements of `T`, combined with the
/// `Reducer` operation `T` supplies.
///
/// The abstract value (the view, written `tree@`) is the sequence of current
/// elements: the input the tree was built from, as changed by later updates.
/// The backing storage lays the tree out implicitly: the node at flat index
/// `i` has its children at `2i+1` and `2i+2`.
pub struct SegmentTree<T> {
    storage: Vec<T>,
    num_of_elements: usize,
    elems: Ghost<Seq<T>>,
}

impl<T: Reducer> View for SegmentTree<T> {
    type V = Seq<T>;

    closed spec fn view(&self) -> Seq<T> {
        self.elems@
    }
}

/// The midpoint a range `[start, end]` is split at, written to avoid the
/// overflow of adding the two bounds first.
fn get_mid(start: usize, end: usize) -> (mid: usize)
    requires
        start <= end,
    ensures
        mid == spec_mid(start as int, end as int),
{
    start + (end - start) / 2
}

impl<T: Reducer> SegmentTree<T> {
    /// The backing storage, as a sequence.
    pub closed spec fn storage_view(self) -> Seq<T> {
        self.storage@
    }

    /// The element count the tree validates query and update positions
    /// against.
    pub closed spec fn spec_num_of_elements(self) -> nat {
        self.num_of_elements as nat
    }

    /// The tree's invariant: the element count matches the view, the storage
    /// has the complete-tree length `2 * 2^ceil(log2(n)) - 1`, the subtree
    /// under the root describes the elements, and every unused slot holds
    /// the identity.
    pub open spec fn well_formed(self) -> bool {
        &&& self@.len() >= 1
        &&& self.spec_num_of_elements() == self@.len()
        &&& self.storage_view().len() == 2 * pow2(log2_ceil(self@.len())) - 1
        &&& node_correct(self.storage_view(), self@, 0, 0, self@.len() - 1)
        &&& padding_is_identity::<T>(self.storage_view(), self@.len() as int)
    }

    /// Populate the subtree at flat index `i` from `source[start ..= end]`:
    /// place the element for a one-element range, else fill both children
    /// and combine them. Writes only the subtree's active slots.
    fn build_helper(storage: &mut Vec<T>, source: &[T], i: usize, start: usize, end: usize)
        requires
            start <= end < source@.len(),
            pow2(log2_ceil((end - start + 1) as nat)) * (i + 2) <= old(storage)@.len() + 1,
        ensures
            final(storage)@.len() == old(storage)@.len(),
            node_correct(final(storage)@, source@, i as int, start as int, end as int),
            forall|j: int|
                0 <= j < old(storage)@.len() && !in_active(
                    j,
                    i as int,
                    start as int,
                    end as int,
                ) ==> final(storage)@[j] == old(storage)@[j],
        decreases end - start,
    {
        let ghost s0 = storage@;
        if start == end {
            proof {
                lemma_pow2_zero();
                assert(log2_ceil(1nat) == 0);
                assert(i < s0.len());
            }
            let v = source[start].dup();
            storage[i] = v;
            proof {
                assert(storage@ =~= s0.update(i as int, v));
                assert(range_combine(source@, start as int, end as int) == source@[start as int]);
                assert(in_active(i as int, i as int, start as int, end as int));
            }
        } else {
            let cur_len = storage.len();
            let ghost len = s0.len() as int;
            let ghost ii = i as int;
            let ghost big_l = (end - start + 1) as nat;
            let ghost left_l = (spec_mid(start as int, end as int) - start + 1) as nat;
            let ghost right_l = (end - spec_mid(start as int, end as int)) as nat;
            let ghost cp = pow2(log2_ceil(big_l));
            let ghost lp = pow2(log2_ceil(left_l));
            let ghost rp = pow2(log2_ceil(right_l));
            proof {
                assert(left_l == (big_l + 1) / 2);
                assert(log2_ceil(big_l) == 1 + log2_ceil(left_l));
                lemma_pow2_unfold(log2_ceil(big_l));
                assert(cp == 2 * lp);
                lemma_pow2_pos(log2_ceil(left_l));
                lemma_pow2_pos(log2_ceil(right_l));
                lemma_log2_ceil_monotone(right_l, left_l);
                if log2_ceil(right_l) < log2_ceil(left_l) {
                    lemma_pow2_strictly_increases(log2_ceil(right_l), log2_ceil(left_l));
                }
                assert(rp <= lp);
                assert(lp * (2 * ii + 3) + lp == (2 * lp) * (ii + 2)) by (nonlinear_arith);
                assert((2 * lp) * (ii + 2) == cp * (ii + 2));
                assert(lp * (2 * ii + 3) <= len + 1 - lp);
                assert(rp * (2 * ii + 4) <= lp * (2 * ii + 4)) by (nonlinear_arith)
                    requires
                        rp <= lp,
                        ii >= 0,
                ;
                assert(lp * (2 * ii + 4) == (2 * lp) * (ii + 2)) by (nonlinear_arith);
                assert(rp * (2 * ii + 4) <= len + 1);
                assert(1 * (2 * ii + 4) <= rp * (2 * ii + 4)) by (nonlinear_arith)
                    requires
                        rp >= 1,
                        ii >= 0,
                ;
                assert(2 * ii + 4 <= len + 1);
                assert(cur_len as int == len);
            }
            let mid = get_mid(start, end);
            Self::build_helper(storage, source, 2 * i + 1, start, mid);
            let ghost s1 = storage@;
            Self::build_helper(storage, source, 2 * i + 2, mid + 1, end);
            let ghost s2 = storage@;
            let ghost m = mid as int;
            proof {
                // the right fill left the finished left subtree alone
                assert forall|j: int|
                    in_active(j, 2 * ii + 1, start as int, m) implies s2[j] == s1[j] by {
                    lemma_active_nonneg(j, 2 * ii + 1, start as int, m);
                    lemma_active_is_descendant(j, 2 * ii + 1, start as int, m);
                    lemma_children_disjoint(j, ii);
                    if in_active(j, 2 * ii + 2, m + 1, end as int) {
                        lemma_active_is_descendant(j, 2 * ii + 2, m + 1, end as int);
                    }
                    lemma_active_in_bounds(s1, source@, j, 2 * ii + 1, start as int, m);
                }
                lemma_node_correct_frame(s1, s2, source@, 2 * ii + 1, start as int, m);
            }
            let right_val = storage[2 * i + 2].dup();
            let combined = storage[2 * i + 1].reduce(right_val);
            storage[i] = combined;
            let ghost s3 = storage@;
            proof {
                assert(s3 =~= s2.update(ii, combined));
                // the parent slot is no child's active slot
                assert forall|j: int|
                    in_active(j, 2 * ii + 1, start as int, m) implies s3[j] == s2[j] by {
                    lemma_active_nonneg(j, 2 * ii + 1, start as int, m);
                    lemma_active_is_descendant(j, 2 * ii + 1, start as int, m);
                    lemma_active_in_bounds(s2, source@, j, 2 * ii + 1, start as int, m);
                    if j == ii {
                        lemma_descendant_ge(j, 2 * ii + 1);
                    }
                }
                assert forall|j: int|
                    in_active(j, 2 * ii + 2, m + 1, end as int) implies s3[j] == s2[j] by {
                    lemma_active_nonneg(j, 2 * ii + 2, m + 1, end as int);
                    lemma_active_is_descendant(j, 2 * ii + 2, m + 1, end as int);
                    lemma_active_in_bounds(s2, source@, j, 2 * ii + 2, m + 1, end as int);
                    if j == ii {
                        lemma_descendant_ge(j, 2 * ii + 2);
                    }
                }
                lemma_node_correct_frame(s2, s3, source@, 2 * ii + 1, start as int, m);
                lemma_node_correct_frame(s2, s3, source@, 2 * ii + 2, m + 1, end as int);
                assert(node_correct(s3, source@, ii, start as int, end as int));
                // nothing outside this subtree's active slots moved
                assert forall|j: int|
                    0 <= j < s0.len() && !in_active(j, ii, start as int, end as int) implies s3[j]
                    == s0[j] by {
                    assert(!in_active(j, 2 * ii + 1, start as int, m));
                    assert(!in_active(j, 2 * ii + 2, m + 1, end as int));
                    assert(j != ii);
                }
            }
        }
    }

    /// Reduce the part of `[from, to]` that the subtree at flat index `i`,
    /// covering `[start, end]`, is responsible for. A node whose range lies
    /// wholly inside the query range answers from its own slot without
    /// descending; one wholly outside contributes the identity; a node cut
    /// by the query range asks both children and combines.
    fn query_helper(&self, start: usize, end: usize, from: usize, to: usize, i: usize) -> (r: T)
        requires
            start <= end < self@.len(),
            from <= to < self@.len(),
            node_correct(self.storage_view(), self@, i as int, start as int, end as int),
        ensures
            r == seq_reduce(
                range_clip(self@, start as int, end as int, from as int, to as int),
            ),
        decreases end - start,
    {
        let ghost clip = range_clip(self@, start as int, end as int, from as int, to as int);
        if start >= from && end <= to {
            proof {
                lemma_range_combine_is_seq_reduce(self@, start as int, end as int);
                assert(clip =~= self@.subrange(start as int, end as int + 1));
            }
            return self.storage[i].dup();
        }
        if end < from || start > to {
            proof {
                assert(clip =~= Seq::<T>::empty());
                assert(seq_reduce(Seq::<T>::empty()) == T::spec_identity());
            }
            return T::identity();
        }
        let cur_len = self.storage.len();
        proof {
            assert(cur_len == self.storage_view().len());
            assert(start < end);
            assert(node_correct(
                self.storage_view(),
                self@,
                2 * (i as int) + 2,
                spec_mid(start as int, end as int) + 1,
                end as int,
            ));
            assert(2 * (i as int) + 2 < cur_len);
        }
        let mid = get_mid(start, end);
        let left_r = self.query_helper(start, mid, from, to, 2 * i + 1);
        let right_r = self.query_helper(mid + 1, end, from, to, 2 * i + 2);
        proof {
            let m = spec_mid(start as int, end as int);
            let clip_l = range_clip(self@, start as int, m, from as int, to as int);
            let clip_r = range_clip(self@, m + 1, end as int, from as int, to as int);
            lemma_seq_reduce_concat(clip_l, clip_r);
            assert(clip_l + clip_r =~= clip);
        }
        left_r.reduce(right_r)
    }

    /// Reduce the elements at positions `from ..= to`, both bounds
    /// inclusive. Returns the flat reduce of exactly those elements; a range
    /// with `to` past the elements or `from > to` is rejected as
    /// `OutOfRange` before any computation.
    pub fn query(&self, from: usize, to: usize) -> (r: Result<T, SegTreeError>)
        requires
            self.well_formed(),
        ensures
            match r {
                Ok(v) => from <= to < self@.len() && v == seq_reduce(
                    self@.subrange(from as int, to as int + 1),
                ),
                Err(e) => e == SegTreeError::OutOfRange && (to >= self@.len() || from > to),
            },
    {
        let num_of_elements = self.num_of_elements;
        if from >= num_of_elements {
            return Err(SegTreeError::OutOfRange);
        }
        if to >= num_of_elements {
            return Err(SegTreeError::OutOfRange);
        }
        if from > to {
            return Err(SegTreeError::OutOfRange);
        }
        let r = self.query_helper(0, num_of_elements - 1, from, to, 0);
        proof {
            assert(range_clip(self@, 0, self@.len() - 1, from as int, to as int) =~= self@.subrange(
                from as int,
                to as int + 1,
            ));
        }
        Ok(r)
    }

    /// Rewrite the path from the subtree at flat index `t_i`, covering
    /// `[start, end]`, down to the leaf for position `idx`, recombining each
    /// ancestor on the way back up. A subtree whose range does not contain
    /// `idx` is left untouched.
    fn update_helper(&mut self, new_val: &T, idx: usize, start: usize, end: usize, t_i: usize)
        requires
            start <= end < old(self)@.len(),
            idx < old(self)@.len(),
            node_correct(
                old(self).storage_view(),
                old(self)@,
                t_i as int,
                start as int,
                end as int,
            ),
        ensures
            final(self)@ == old(self)@,
            final(self).spec_num_of_elements() == old(self).spec_num_of_elements(),
            final(self).storage_view().len() == old(self).storage_view().len(),
            start <= idx <= end ==> node_correct(
                final(self).storage_view(),
                old(self)@.update(idx as int, *new_val),
                t_i as int,
                start as int,
                end as int,
            ),
            !(start <= idx <= end) ==> final(self).storage_view() == old(self).storage_view(),
            forall|j: int|
                0 <= j < old(self).storage_view().len() && !in_active(
                    j,
                    t_i as int,
                    start as int,
                    end as int,
                ) ==> final(self).storage_view()[j] == old(self).storage_view()[j],
        decreases end - start,
    {
        if start > idx || idx > end {
            return ;
        }
        let ghost s0 = self.storage@;
        let ghost elems = self@;
        let ghost elems2 = self@.update(idx as int, *new_val);
        let ghost ti = t_i as int;
        if start == end {
            let v = new_val.dup();
            self.storage[t_i] = v;
            proof {
                assert(self.storage@ =~= s0.update(ti, v));
                assert(range_combine(elems2, start as int, end as int) == elems2[start as int]);
                assert(in_active(ti, ti, start as int, end as int));
            }
            return ;
        }
        let cur_len = self.storage.len();
        proof {
            assert(cur_len == self.storage_view().len());
            assert(node_correct(
                self.storage_view(),
                self@,
                2 * ti + 2,
                spec_mid(start as int, end as int) + 1,
                end as int,
            ));
            assert(2 * ti + 2 < cur_len);
        }
        let mid = get_mid(start, end);
        let ghost m = mid as int;
        if idx <= mid {
            self.update_helper(new_val, idx, start, mid, 2 * t_i + 1);
            let ghost s1 = self.storage@;
            proof {
                // the untouched right subtree still matches, and the changed
                // element lies outside its range
                assert forall|j: int|
                    in_active(j, 2 * ti + 2, m + 1, end as int) implies s1[j] == s0[j] by {
                    lemma_active_nonneg(j, 2 * ti + 2, m + 1, end as int);
                    lemma_active_is_descendant(j, 2 * ti + 2, m + 1, end as int);
                    lemma_active_in_bounds(s0, elems, j, 2 * ti + 2, m + 1, end as int);
                    if in_active(j, 2 * ti + 1, start as int, m) {
                        lemma_active_is_descendant(j, 2 * ti + 1, start as int, m);
                        lemma_children_disjoint(j, ti);
                    }
                }
                lemma_node_correct_frame(s0, s1, elems, 2 * ti + 2, m + 1, end as int);
                lemma_node_correct_congruence(s1, elems, elems2, 2 * ti + 2, m + 1, end as int);
            }
        } else {
            self.update_helper(new_val, idx, mid + 1, end, 2 * t_i + 2);
            let ghost s1 = self.storage@;
            proof {
                // mirror image: the left subtree is the untouched one
                assert forall|j: int|
                    in_active(j, 2 * ti + 1, start as int, m) implies s1[j] == s0[j] by {
                    lemma_active_nonneg(j, 2 * ti + 1, start as int, m);
                    lemma_active_is_descendant(j, 2 * ti + 1, start as int, m);
                    lemma_active_in_bounds(s0, elems, j, 2 * ti + 1, start as int, m);
                    lemma_children_disjoint(j, ti);
                    if in_active(j, 2 * ti + 2, m + 1, end as int) {
                        lemma_active_is_descendant(j, 2 * ti + 2, m + 1, end as int);
                    }
                }
                lemma_node_correct_frame(s0, s1, elems, 2 * ti + 1, start as int, m);
                lemma_node_correct_congruence(s1, elems, elems2, 2 * ti + 1, start as int, m);
            }
        }
        let ghost s1 = self.storage@;
        let right_val = self.storage[2 * t_i + 2].dup();
        let combined = self.storage[2 * t_i + 1].reduce(right_val);
        self.storage[t_i] = combined;
        let ghost s2 = self.storage@;
        proof {
            assert(s2 =~= s1.update(ti, combined));
            assert forall|j: int| in_active(j, 2 * ti + 1, start as int, m) implies s2[j]
                == s1[j] by {
                lemma_active_nonneg(j, 2 * ti + 1, start as int, m);
                lemma_active_is_descendant(j, 2 * ti + 1, start as int, m);
                lemma_active_in_bounds(s1, elems2, j, 2 * ti + 1, start as int, m);
                if j == ti {
                    lemma_descendant_ge(j, 2 * ti + 1);
                }
            }
            assert forall|j: int| in_active(j, 2 * ti + 2, m + 1, end as int) implies s2[j]
                == s1[j] by {
                lemma_active_nonneg(j, 2 * ti + 2, m + 1, end as int);
                lemma_active_is_descendant(j, 2 * ti + 2, m + 1, end as int);
                lemma_active_in_bounds(s1, elems2, j, 2 * ti + 2, m + 1, end as int);
                if j == ti {
                    lemma_descendant_ge(j, 2 * ti + 2);
                }
            }
            lemma_node_correct_frame(s1, s2, elems2, 2 * ti + 1, start as int, m);
            lemma_node_correct_frame(s1, s2, elems2, 2 * ti + 2, m + 1, end as int);
            assert(node_correct(s2, elems2, ti, start as int, end as int));
            assert forall|j: int|
                0 <= j < s0.len() && !in_active(j, ti, start as int, end as int) implies s2[j]
                == s0[j] by {
                assert(!in_active(j, 2 * ti + 1, start as int, m));
                assert(!in_active(j, 2 * ti + 2, m + 1, end as int));
                assert(j != ti);
            }
        }
    }

    /// Replace the element at position `i` with `new_val`, rewriting exactly
    /// the root-to-leaf path for `i`. A position at or past the element
    /// count is rejected as `OutOfRange` with the tree left untouched.
    pub fn update(&mut self, new_val: &T, i: usize) -> (r: Result<(), SegTreeError>)
        requires
            old(self).well_formed(),
        ensures
            final(self).well_formed(),
            match r {
                Ok(()) => i < old(self)@.len() && final(self)@ == old(self)@.update(
                    i as int,
                    *new_val,
                ),
                Err(e) => e == SegTreeError::OutOfRange && i >= old(self)@.len() && *final(self)
                    == *old(self),
            },
    {
        if i >= self.num_of_elements {
            return Err(SegTreeError::OutOfRange);
        }
        let ghost s0 = self.storage@;
        let ghost elems2 = self@.update(i as int, *new_val);
        let n = self.num_of_elements;
        self.update_helper(new_val, i, 0, n - 1, 0);
        self.elems = Ghost(elems2);
        proof {
            assert forall|j: int|
                0 <= j < self.storage_view().len() && !in_active(
                    j,
                    0,
                    0,
                    self@.len() - 1,
                ) implies self.storage_view()[j] == T::spec_identity() by {
                assert(self.storage_view()[j] == s0[j]);
            }
        }
        Ok(())
    }

    /// Construct a tree over a non-empty input: allocate the complete-tree
    /// storage, pad it with the identity, then fill it from the input. The
    /// second requirement only keeps the padded storage addressable.
    pub fn build(vec: &[T]) -> (tree: SegmentTree<T>)
        requires
            vec@.len() >= 1,
            2 * pow2(log2_ceil(vec@.len())) - 1 <= usize::MAX,
        ensures
            tree.well_formed(),
            tree@ == vec@,
    {
        let n = vec.len();
        let ghost cap = pow2(log2_ceil(n as nat));
        proof {
            lemma_pow2_zero();
            lemma_pow2_log2_ceil_bound(n as nat);
        }
        let mut size: usize = 1;
        let ghost mut e: nat = 0;
        while size < n
            invariant
                n == vec@.len(),
                1 <= n,
                cap == pow2(log2_ceil(n as nat)),
                2 * cap - 1 <= usize::MAX,
                cap >= n,
                1 <= size,
                size == pow2(e),
                size <= cap,
                e == 0 || pow2((e - 1) as nat) < n,
            decreases cap - size,
        {
            proof {
                lemma_pow2_lt_implies_exp_lt(e, log2_ceil(n as nat));
                lemma_pow2_unfold(e + 1);
                if e + 1 < log2_ceil(n as nat) {
                    lemma_pow2_strictly_increases(e + 1, log2_ceil(n as nat));
                }
                assert(2 * size <= cap);
            }
            size = size * 2;
            proof {
                e = e + 1;
            }
        }
        proof {
            lemma_log2_ceil_unique(n as nat, e);
            assert(size == cap);
        }
        let storage_len = size - 1 + size;
        let mut storage: Vec<T> = Vec::new();
        while storage.len() < storage_len
            invariant
                storage@.len() <= storage_len,
                forall|j: int| 0 <= j < storage@.len() ==> storage@[j] == T::spec_identity(),
            decreases storage_len - storage@.len(),
        {
            storage.push(T::identity());
        }
        let ghost padded = storage@;
        Self::build_helper(&mut storage, vec, 0, 0, n - 1);
        let tree = SegmentTree { storage, num_of_elements: n, elems: Ghost(vec@) };
        proof {
            assert(tree.storage_view().len() == 2 * cap - 1);
            assert forall|j: int|
                0 <= j < tree.storage_view().len() && !in_active(
                    j,
                    0,
                    0,
                    n as int - 1,
                ) implies tree.storage_view()[j] == T::spec_identity() by {
                assert(tree.storage_view()[j] == padded[j]);
            }
        }
        tree
    }

    /// Read-only view of the backing sequence, for diagnostics and for
    /// checking the build invariant from outside.
    pub fn storage(&self) -> (r: &Vec<T>)
        ensures
            r@ == self.storage_view(),
    {
        &self.storage
    }
}

/// Every node of the active tree over `[start, end]` that has children
/// holds exactly the combine of its two children's slots.
pub open spec fn internal_nodes_combined<T: Reducer>(
    storage: Seq<T>,
    i: int,
    start: int,
    end: int,
) -> bool
    decreases end - start,
        when start <= end
{
    start < end ==> {
        let mid = spec_mid(start, end);
        &&& storage[i] == storage[2 * i + 1].spec_reduce(storage[2 * i + 2])
        &&& internal_nodes_combined(storage, 2 * i + 1, start, mid)
        &&& internal_nodes_combined(storage, 2 * i + 2, mid + 1, end)
    }
}

proof fn lemma_node_correct_implies_combined<T: Reducer>(
    storage: Seq<T>,
    elems: Seq<T>,
    i: int,
    start: int,
    end: int,
)
    requires
        0 <= start <= end,
        node_correct(storage, elems, i, start, end),
    ensures
        internal_nodes_combined(storage, i, start, end),
    decreases end - start,
{
    if start < end {
        let mid = spec_mid(start, end);
        assert(node_correct(storage, elems, 2 * i + 1, start, mid));
        assert(node_correct(storage, elems, 2 * i + 2, mid + 1, end));
        assert(storage[2 * i + 1] == range_combine(elems, start, mid));
        assert(storage[2 * i + 2] == range_combine(elems, mid + 1, end));
        assert(range_combine(elems, start, end) == range_combine(elems, start, mid).spec_reduce(
            range_combine(elems, mid + 1, end),
        ));
        lemma_node_correct_implies_combined(storage, elems, 2 * i + 1, start, mid);
        lemma_node_correct_implies_combined(storage, elems, 2 * i + 2, mid + 1, end);
    }
}

/// The shape invariant: a well-formed tree over `n` elements — which build
/// establishes and update preserves — has backing storage of length
/// `2 * 2^ceil(log2(n)) - 1`, and every internal node of the active tree
/// holds the combine of its two children's values.
pub proof fn lemma_shape_invariant<T: Reducer>(tree: &SegmentTree<T>)
    requires
        tree.well_formed(),
    ensures
        tree.storage_view().len() == 2 * pow2(log2_ceil(tree@.len())) - 1,
        internal_nodes_combined(tree.storage_view(), 0, 0, tree@.len() - 1),
{
    lemma_node_correct_implies_combined(
        tree.storage_view(),
        tree@,
        0,
        0,
        tree@.len() - 1,
    );
}

/// The round trip from elements through the tree and back: a one-position
/// query reduces the single element at that position to itself, so
/// `query(k, k)` returns the element at `k`.
pub proof fn lemma_single_position_reduce<T: Reducer>(elems: Seq<T>, k: int)
    requires
        0 <= k < elems.len(),
    ensures
        seq_reduce(elems.subrange(k, k + 1)) == elems[k],
{
    lemma_range_combine_is_seq_reduce(elems, k, k);
}

} // verus!
