//! A leftist heap: a rank-annotated binary tree implementing a persistent
//! priority queue with logarithmic-time `merge`.
//!
//! Two invariants govern every node: the heap order (a node's value is no
//! greater than any value below it) and the leftist property (the rank of
//! the left child is at least the rank of the right child, where the rank
//! of a tree is the length of its right spine).  The abstract view of a
//! heap is the multiset of the values it stores.

use std::rc::Rc;
use vstd::arithmetic::power2::{lemma2_to64, lemma_pow2_strictly_increases, lemma_pow2_unfold, pow2};
use vstd::multiset::Multiset;
use vstd::prelude::*;

verus! {

broadcast use vstd::multiset::group_multiset_axioms, vstd::multiset::group_multiset_properties;

/// A persistent leftist heap over `i64` values.
///
/// `Node` children are reference-counted so that an update shares the
/// untouched subtrees of the previous version instead of copying them.
#[derive(Debug)]
pub enum LeftistHeap {
    Node { rank: u32, val: i64, ltree: Rc<LeftistHeap>, rtree: Rc<LeftistHeap> },
    Empty,
}

impl LeftistHeap {
    /// The multiset of values stored in the heap.
    pub open spec fn as_mset(&self) -> Multiset<i64>
        decreases self,
    {
        match self {
            LeftistHeap::Empty => Multiset::empty(),
            LeftistHeap::Node { val, ltree, rtree, .. } => {
                (**ltree).as_mset().add((**rtree).as_mset()).insert(*val)
            },
        }
    }

    /// The length of the right spine: the number of nodes on the path that
    /// always descends into the right child.
    pub open spec fn rank_of(&self) -> nat
        decreases self,
    {
        match self {
            LeftistHeap::Empty => 0,
            LeftistHeap::Node { rtree, .. } => (**rtree).rank_of() + 1,
        }
    }

    /// The value at the root, if any; under `wf` it is the minimum.
    pub open spec fn spec_find_min(&self) -> Option<i64> {
        match self {
            LeftistHeap::Empty => None,
            LeftistHeap::Node { val, .. } => Some(*val),
        }
    }

    /// Well-formedness: heap order, the leftist property, and a correct
    /// stored rank, at every node.
    pub open spec fn wf(&self) -> bool
        decreases self,
    {
        match self {
            LeftistHeap::Empty => true,
            LeftistHeap::Node { rank, val, ltree, rtree } => {
                &&& (**ltree).wf()
                &&& (**rtree).wf()
                &&& (forall|x: i64| #[trigger] (**ltree).as_mset().count(x) > 0 ==> *val <= x)
                &&& (forall|x: i64| #[trigger] (**rtree).as_mset().count(x) > 0 ==> *val <= x)
                &&& (**ltree).rank_of() >= (**rtree).rank_of()
                &&& *rank == (**rtree).rank_of() + 1
            },
        }
    }
}

impl View for LeftistHeap {
    type V = Multiset<i64>;

    open spec fn view(&self) -> Multiset<i64> {
        self.as_mset()
    }
}

impl LeftistHeap {
    /// The stored rank of the heap (zero for an empty heap).
    pub fn rank(&self) -> (r: u32)
        requires
            self.wf(),
        ensures
            r == self.rank_of(),
    {
        match self {
            LeftistHeap::Empty => 0,
            LeftistHeap::Node { rank, .. } => *rank,
        }
    }

    /// A heap holding exactly one value.
    pub fn singleton(elt: i64) -> (h: Self)
        ensures
            h.wf(),
            h@ == Multiset::empty().insert(elt),
            h.rank_of() == 1,
            h.spec_find_min() == Some(elt),
    {
        let h = LeftistHeap::Node {
            rank: 1,
            val: elt,
            ltree: Rc::new(LeftistHeap::Empty),
            rtree: Rc::new(LeftistHeap::Empty),
        };
        proof {
            match &h {
                LeftistHeap::Node { ltree, rtree, .. } => {
                    assert((**ltree).as_mset() =~= Multiset::<i64>::empty());
                    assert((**rtree).as_mset() =~= Multiset::<i64>::empty());
                    assert((**ltree).rank_of() == 0);
                    assert((**rtree).rank_of() == 0);
                    assert((**ltree).wf());
                    assert((**rtree).wf());
                },
                LeftistHeap::Empty => {},
            }
            assert(h@ =~= Multiset::empty().insert(elt));
        }
        h
    }

    /// The heap with no values.
    pub fn empty() -> (h: Self)
        ensures
            h.wf(),
            h@ == Multiset::<i64>::empty(),
            h is Empty,
    {
        LeftistHeap::Empty
    }

    /// Whether the heap holds no values.
    pub fn is_empty(&self) -> (r: bool)
        ensures
            r == (self is Empty),
            r == (self@.len() == 0),
    {
        proof {
            lemma_empty_iff_len_zero(self);
        }
        match self {
            LeftistHeap::Empty => true,
            _ => false,
        }
    }

    /// The minimum value of the heap, or nothing if it is empty.
    pub fn find_min(&self) -> (r: Option<&i64>)
        requires
            self.wf(),
        ensures
            match r {
                None => self is Empty,
                Some(v) => {
                    &&& Some(*v) == self.spec_find_min()
                    &&& self@.count(*v) > 0
                    &&& forall|x: i64| #[trigger] self@.count(x) > 0 ==> *v <= x
                },
            },
    {
        proof {
            if self is Node {
                lemma_root_is_min(self);
            }
        }
        match self {
            LeftistHeap::Empty => None,
            LeftistHeap::Node { val, .. } => Some(val),
        }
    }
}

impl Clone for LeftistHeap {
    /// Duplicates the root; the subtrees are shared by reference count,
    /// not copied, so the clone is structurally equal to the original.
    fn clone(&self) -> (res: Self)
        ensures
            res == *self,
    {
        match self {
            LeftistHeap::Empty => LeftistHeap::Empty,
            LeftistHeap::Node { rank, val, ltree, rtree } => LeftistHeap::Node {
                rank: *rank,
                val: *val,
                ltree: Rc::clone(ltree),
                rtree: Rc::clone(rtree),
            },
        }
    }
}

/// The smaller of two optional minima, where absence acts as an identity.
pub open spec fn merged_min(a: Option<i64>, b: Option<i64>) -> Option<i64> {
    match (a, b) {
        (None, _) => b,
        (Some(x), None) => a,
        (Some(x), Some(y)) => if x <= y { a } else { b },
    }
}

/// A heap has rank zero exactly when it is empty.
proof fn lemma_rank_zero_empty(h: &LeftistHeap)
    ensures
        (h.rank_of() == 0) <==> (h is Empty),
{
    match h {
        LeftistHeap::Empty => {},
        LeftistHeap::Node { .. } => {},
    }
}

/// Powers of two are monotone in the exponent.
proof fn lemma_pow2_mono(a: nat, b: nat)
    requires
        a <= b,
    ensures
        pow2(a) <= pow2(b),
{
    if a < b {
        lemma_pow2_strictly_increases(a, b);
    }
}

/// The leftist property bounds a heap's size from below: a heap of rank
/// `r` holds at least `2^r - 1` values.  This is what makes the right
/// spine, and hence `merge`, logarithmic in the size.
pub proof fn lemma_rank_bounds_size(h: &LeftistHeap)
    requires
        h.wf(),
    ensures
        pow2(h.rank_of()) <= h@.len() + 1,
    decreases *h,
{
    lemma2_to64();
    match h {
        LeftistHeap::Empty => {
            assert(h@ =~= Multiset::<i64>::empty());
        },
        LeftistHeap::Node { val, ltree, rtree, .. } => {
            lemma_rank_bounds_size(&**ltree);
            lemma_rank_bounds_size(&**rtree);
            assert(h.rank_of() == (**rtree).rank_of() + 1);
            lemma_pow2_unfold(h.rank_of());
            lemma_pow2_mono((**rtree).rank_of(), (**ltree).rank_of());
            assert(h@.len() == (**ltree)@.len() + (**rtree)@.len() + 1);
        },
    }
}

/// A well-formed heap smaller than `u32::MAX` has rank at most 31, so a
/// stored rank never overflows.
proof fn lemma_rank_fits(h: &LeftistHeap)
    requires
        h.wf(),
        h@.len() < u32::MAX as nat,
    ensures
        h.rank_of() <= 31,
{
    lemma_rank_bounds_size(h);
    lemma2_to64();
    if h.rank_of() > 32 {
        lemma_pow2_strictly_increases(32, h.rank_of());
    }
    if h.rank_of() > 31 {
        assert(pow2(32) <= pow2(h.rank_of()));
    }
}

/// Build a node with the given value and subtrees, swapping the subtrees
/// if needed so that the left child's rank is at least the right child's,
/// and setting the stored rank to the right child's rank plus one.
fn make_tree(val: i64, ltree: Rc<LeftistHeap>, rtree: Rc<LeftistHeap>) -> (r: LeftistHeap)
    requires
        (*ltree).wf(),
        (*rtree).wf(),
        forall|e: i64| #[trigger] (*ltree).as_mset().count(e) > 0 ==> val <= e,
        forall|e: i64| #[trigger] (*rtree).as_mset().count(e) > 0 ==> val <= e,
        (*ltree).as_mset().len() + (*rtree).as_mset().len() < u32::MAX as nat,
    ensures
        r.wf(),
        r@ == (*ltree).as_mset().add((*rtree).as_mset()).insert(val),
        r.spec_find_min() == Some(val),
{
    proof {
        lemma_rank_fits(&*ltree);
        lemma_rank_fits(&*rtree);
    }
    let lr = ltree.rank();
    let rr = rtree.rank();
    if lr >= rr {
        let r = LeftistHeap::Node { rank: rr + 1, val, ltree, rtree };
        proof {
            assert(r@ =~= (*ltree).as_mset().add((*rtree).as_mset()).insert(val));
        }
        r
    } else {
        let r = LeftistHeap::Node { rank: lr + 1, val, ltree: rtree, rtree: ltree };
        proof {
            assert(r@ =~= (*ltree).as_mset().add((*rtree).as_mset()).insert(val));
        }
        r
    }
}

impl LeftistHeap {
    /// Merge two heaps into one holding the values of both.
    ///
    /// Merging with an empty heap returns the other operand unchanged.
    /// Otherwise the smaller root becomes the new root, keeping its left
    /// child and merging its right child with the entire other heap, so
    /// the recursion walks only the two right spines.  The size bound in
    /// the precondition, needed only when both operands are non-empty,
    /// keeps every stored rank within `u32`.
    pub fn merge(&self, other: &LeftistHeap) -> (r: LeftistHeap)
        requires
            self.wf(),
            other.wf(),
            (self is Node && other is Node) ==> self@.len() + other@.len() <= u32::MAX as nat,
        ensures
            r.wf(),
            r@ == self@.add(other@),
            self is Empty ==> r == *other,
            other is Empty ==> r == *self,
            r.spec_find_min() == merged_min(self.spec_find_min(), other.spec_find_min()),
        decreases *self, *other,
    {
        match self {
            LeftistHeap::Empty => {
                let r = other.clone();
                proof {
                    assert(r@ =~= self@.add(other@));
                }
                r
            },
            LeftistHeap::Node { val: x, ltree: ltree1, rtree: rtree1, .. } => match other {
                LeftistHeap::Empty => {
                    let r = self.clone();
                    proof {
                        assert(r@ =~= self@.add(other@));
                    }
                    r
                },
                LeftistHeap::Node { val: y, ltree: ltree2, rtree: rtree2, .. } => {
                    proof {
                        assert(self@.len() == (**ltree1)@.len() + (**rtree1)@.len() + 1);
                        assert(other@.len() == (**ltree2)@.len() + (**rtree2)@.len() + 1);
                    }
                    if *x <= *y {
                        let merged = (**rtree1).merge(other);
                        proof {
                            assert forall|e: i64| #[trigger] merged@.count(e) > 0 implies *x
                                <= e by {
                                if (**rtree1)@.count(e) == 0 {
                                    assert(other@.count(e) > 0);
                                    if e != *y {
                                        assert((**ltree2)@.count(e) > 0 || (**rtree2)@.count(e)
                                            > 0);
                                    }
                                }
                            }
                        }
                        let r = make_tree(*x, Rc::clone(ltree1), Rc::new(merged));
                        proof {
                            assert(r@ =~= self@.add(other@));
                        }
                        r
                    } else {
                        let merged = self.merge(&**rtree2);
                        proof {
                            assert forall|e: i64| #[trigger] merged@.count(e) > 0 implies *y
                                <= e by {
                                if (**rtree2)@.count(e) == 0 {
                                    assert(self@.count(e) > 0);
                                    if e != *x {
                                        assert((**ltree1)@.count(e) > 0 || (**rtree1)@.count(e)
                                            > 0);
                                    }
                                }
                            }
                        }
                        let r = make_tree(*y, Rc::clone(ltree2), Rc::new(merged));
                        proof {
                            assert(r@ =~= self@.add(other@));
                        }
                        r
                    }
                },
            },
        }
    }
}

impl LeftistHeap {
    /// Add a value to the heap by direct recursive descent, without
    /// building an intermediate singleton heap.
    ///
    /// The smaller of the new value and the root stays at the root; the
    /// larger descends into the child whose root is smaller or equal,
    /// breaking ties toward the left child.  The children are then
    /// swapped if needed to restore the leftist property.
    pub fn insert(&self, elt: i64) -> (r: LeftistHeap)
        requires
            self.wf(),
            self is Node ==> self@.len() < u32::MAX as nat,
        ensures
            r.wf(),
            r@ == self@.insert(elt),
            r.spec_find_min() == merged_min(self.spec_find_min(), Some(elt)),
        decreases *self,
    {
        match self {
            LeftistHeap::Empty => {
                let r = Self::singleton(elt);
                proof {
                    assert(r@ =~= self@.insert(elt));
                }
                r
            },
            LeftistHeap::Node { val, ltree, rtree, .. } => {
                let (t, b) = if *val <= elt {
                    (*val, elt)
                } else {
                    (elt, *val)
                };
                proof {
                    assert(self@.len() == (**ltree)@.len() + (**rtree)@.len() + 1);
                }
                match &**ltree {
                    LeftistHeap::Empty => {
                        proof {
                            lemma_rank_zero_empty(&**rtree);
                            assert(**rtree is Empty);
                            assert((**ltree)@ =~= Multiset::<i64>::empty());
                            assert((**rtree)@ =~= Multiset::<i64>::empty());
                        }
                        let r = make_tree(t, Rc::clone(ltree), Rc::new(Self::singleton(b)));
                        proof {
                            assert(r@ =~= self@.insert(elt));
                        }
                        r
                    },
                    LeftistHeap::Node { val: y1, .. } => match &**rtree {
                        LeftistHeap::Empty => {
                            let r = make_tree(t, Rc::clone(ltree), Rc::new(Self::singleton(b)));
                            proof {
                                assert((**rtree)@ =~= Multiset::<i64>::empty());
                                assert(r@ =~= self@.insert(elt));
                            }
                            r
                        },
                        LeftistHeap::Node { val: y2, .. } => {
                            if *y1 <= *y2 {
                                let nl = (**ltree).insert(b);
                                let r = make_tree(t, Rc::new(nl), Rc::clone(rtree));
                                proof {
                                    assert(r@ =~= self@.insert(elt));
                                }
                                r
                            } else {
                                let nr = (**rtree).insert(b);
                                let r = make_tree(t, Rc::clone(ltree), Rc::new(nr));
                                proof {
                                    assert(r@ =~= self@.insert(elt));
                                }
                                r
                            }
                        },
                    },
                }
            },
        }
    }

    /// Add a value to the heap by merging with a singleton heap; the
    /// merge-based counterpart of `insert`, with the same contract.
    pub fn insert_merge(&self, elt: i64) -> (r: LeftistHeap)
        requires
            self.wf(),
            self is Node ==> self@.len() < u32::MAX as nat,
        ensures
            r.wf(),
            r@ == self@.insert(elt),
            r.spec_find_min() == merged_min(self.spec_find_min(), Some(elt)),
    {
        let s = Self::singleton(elt);
        let r = s.merge(self);
        proof {
            assert(r@ =~= self@.insert(elt));
        }
        r
    }

    /// Remove the minimum value: discard the root and merge its two
    /// children.  Returns nothing exactly when the heap is empty.
    pub fn delete_min(&self) -> (r: Option<LeftistHeap>)
        requires
            self.wf(),
            self is Node ==> self@.len() <= u32::MAX as nat,
        ensures
            r is None <==> self is Empty,
            match r {
                None => self is Empty,
                Some(rest) => {
                    &&& rest.wf()
                    &&& rest@ == self@.remove(self.spec_find_min().unwrap())
                    &&& rest@.len() == self@.len() - 1
                    &&& (self@.len() == 1 ==> rest is Empty)
                },
            },
    {
        match self {
            LeftistHeap::Empty => None,
            LeftistHeap::Node { val, ltree, rtree, .. } => {
                proof {
                    assert(self@.len() == (**ltree)@.len() + (**rtree)@.len() + 1);
                }
                let rest = (**ltree).merge(&**rtree);
                proof {
                    assert(rest@ =~= self@.remove(*val));
                    if self@.len() == 1 {
                        lemma_empty_iff_len_zero(&rest);
                    }
                }
                Some(rest)
            },
        }
    }
}

/// A heap is `Empty` exactly when its multiset of values is empty.
pub proof fn lemma_empty_iff_len_zero(h: &LeftistHeap)
    ensures
        (h is Empty) <==> h@.len() == 0,
{
    match h {
        LeftistHeap::Empty => {
            assert(h@ =~= Multiset::empty());
        },
        LeftistHeap::Node { val, ltree, rtree, .. } => {
            assert(h@.count(*val) > 0);
        },
    }
}

/// In a well-formed non-empty heap, the root value occurs in the heap and
/// is no greater than every value in it.
pub proof fn lemma_root_is_min(h: &LeftistHeap)
    requires
        h.wf(),
        h is Node,
    ensures
        h@.count(h.spec_find_min().unwrap()) > 0,
        forall|x: i64| #[trigger] h@.count(x) > 0 ==> h.spec_find_min().unwrap() <= x,
{
    match h {
        LeftistHeap::Empty => {},
        LeftistHeap::Node { val, ltree, rtree, .. } => {
            assert forall|x: i64| #[trigger] h@.count(x) > 0 implies *val <= x by {
                if x != *val {
                    assert((**ltree).as_mset().count(x) > 0 || (**rtree).as_mset().count(x) > 0);
                }
            }
        },
    }
}

/// Two well-formed heaps holding the same multiset of values have the
/// same minimum.  In particular the merge-based and the direct-descent
/// insert strategies, which both produce the multiset `self@.insert(elt)`,
/// yield heaps with identical `find_min` results, and since `delete_min`
/// removes exactly that minimum, with identical extraction sequences.
pub proof fn lemma_min_determined(h1: &LeftistHeap, h2: &LeftistHeap)
    requires
        h1.wf(),
        h2.wf(),
        h1@ == h2@,
    ensures
        h1.spec_find_min() == h2.spec_find_min(),
{
    lemma_empty_iff_len_zero(h1);
    lemma_empty_iff_len_zero(h2);
    if h1 is Node && h2 is Node {
        lemma_root_is_min(h1);
        lemma_root_is_min(h2);
    }
}

/// Deleting the minimum never uncovers a smaller value: the minimum of
/// the remaining heap is at least the minimum removed, so repeated
/// `find_min` / `delete_min` extracts the values in non-decreasing
/// order; and deleting the minimum of a one-value heap leaves `Empty`.
pub proof fn lemma_delete_min_sorted(h: &LeftistHeap, rest: &LeftistHeap)
    requires
        h.wf(),
        h is Node,
        rest.wf(),
        rest@ == h@.remove(h.spec_find_min().unwrap()),
    ensures
        rest is Node ==> h.spec_find_min().unwrap() <= rest.spec_find_min().unwrap(),
        h@.len() == 1 ==> rest is Empty,
{
    lemma_root_is_min(h);
    if rest is Node {
        lemma_root_is_min(rest);
        assert(h@.count(rest.spec_find_min().unwrap()) > 0);
    }
    lemma_empty_iff_len_zero(rest);
}

} // verus!
