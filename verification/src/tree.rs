//! A persistent unbalanced binary search tree used as a set of `i64`
//! values.
//!
//! `insert` and `member` thread an accumulator down the recursion: the
//! value of the nearest ancestor at which the descent turned left.  The
//! equality test for duplicate detection then happens once, at the leaf,
//! instead of at every node on the path.  Inserting a value that is
//! already present is a no-op returning the unchanged tree.

use std::rc::Rc;
use vstd::arithmetic::power2::{lemma_pow2_pos, lemma_pow2_unfold, pow2};
use vstd::prelude::*;

verus! {

/// A persistent binary search tree.  `Node` children are
/// reference-counted, so an update shares every untouched subtree with
/// the previous version.
#[derive(Debug)]
pub enum Tree {
    Node { val: i64, ltree: Rc<Tree>, rtree: Rc<Tree> },
    Empty,
}

impl Tree {
    /// The set of values stored in the tree.
    pub open spec fn as_set(&self) -> Set<i64>
        decreases self,
    {
        match self {
            Tree::Empty => Set::empty(),
            Tree::Node { val, ltree, rtree } => {
                (**ltree).as_set().union((**rtree).as_set()).insert(*val)
            },
        }
    }

    /// The number of nodes in the tree.
    pub open spec fn node_count(&self) -> nat
        decreases self,
    {
        match self {
            Tree::Empty => 0,
            Tree::Node { ltree, rtree, .. } => {
                1 + (**ltree).node_count() + (**rtree).node_count()
            },
        }
    }

    /// The height of the tree: the number of nodes on its longest path.
    pub open spec fn height(&self) -> nat
        decreases self,
    {
        match self {
            Tree::Empty => 0,
            Tree::Node { ltree, rtree, .. } => {
                1 + if (**ltree).height() >= (**rtree).height() {
                    (**ltree).height()
                } else {
                    (**rtree).height()
                }
            },
        }
    }

    /// A balanced count split at every node: the left subtree holds half
    /// of the node's descendants, rounded down, and the right subtree the
    /// rest, so sibling node counts differ by at most one.
    pub open spec fn balanced(&self) -> bool
        decreases self,
    {
        match self {
            Tree::Empty => true,
            Tree::Node { ltree, rtree, .. } => {
                &&& (**ltree).balanced()
                &&& (**rtree).balanced()
                &&& (**ltree).node_count() == ((**ltree).node_count() + (**rtree).node_count())
                    / 2
            },
        }
    }

    /// The value at the root of a non-empty tree.
    pub open spec fn spec_root(&self) -> i64
        recommends
            self is Node,
    {
        match self {
            Tree::Node { val, .. } => *val,
            Tree::Empty => arbitrary(),
        }
    }

    /// The search-tree order: at every node, the left subtree holds only
    /// strictly smaller values and the right subtree only strictly
    /// larger ones.
    pub open spec fn wf(&self) -> bool
        decreases self,
    {
        match self {
            Tree::Empty => true,
            Tree::Node { val, ltree, rtree } => {
                &&& (**ltree).wf()
                &&& (**rtree).wf()
                &&& (forall|x: i64| #[trigger] (**ltree).as_set().contains(x) ==> x < *val)
                &&& (forall|x: i64| #[trigger] (**rtree).as_set().contains(x) ==> x > *val)
            },
        }
    }
}

impl View for Tree {
    type V = Set<i64>;

    open spec fn view(&self) -> Set<i64> {
        self.as_set()
    }
}

impl Clone for Tree {
    /// Duplicates the root; the subtrees are shared by reference count,
    /// not copied, so the clone is structurally equal to the original.
    fn clone(&self) -> (res: Self)
        ensures
            res == *self,
    {
        match self {
            Tree::Empty => Tree::Empty,
            Tree::Node { val, ltree, rtree } => Tree::Node {
                val: *val,
                ltree: Rc::clone(ltree),
                rtree: Rc::clone(rtree),
            },
        }
    }
}

/// The accumulator invariant of the threaded descent: when the sought
/// value does not exceed the accumulator, either every value in the
/// subtree is below the accumulator, or the subtree is the whole tree
/// and the accumulator is its own root value.
pub open spec fn probe_inv(tree: &Tree, elt: i64, possible: i64) -> bool {
    elt <= possible ==> {
        ||| (forall|x: i64| #[trigger] tree.as_set().contains(x) ==> x < possible)
        ||| (tree is Node && tree.spec_root() == possible)
    }
}

impl Tree {
    /// The tree with no values.
    pub fn empty() -> (r: Tree)
        ensures
            r.wf(),
            r@ == Set::<i64>::empty(),
            r is Empty,
    {
        Tree::Empty
    }

    fn member_impl(tree: &Tree, elt: i64, possible: i64) -> (r: bool)
        requires
            tree.wf(),
            probe_inv(tree, elt, possible),
        ensures
            r == (tree@.contains(elt) || elt == possible),
        decreases *tree,
    {
        match tree {
            Tree::Empty => elt == possible,
            Tree::Node { val, ltree, rtree } => {
                if elt <= *val {
                    let r = Self::member_impl(&**ltree, elt, *val);
                    proof {
                        if elt == possible && !tree@.contains(elt) {
                            assert(tree@.contains(*val));
                        }
                        if (**rtree)@.contains(elt) {
                            assert(elt > *val);
                        }
                    }
                    r
                } else {
                    proof {
                        if elt <= possible {
                            assert forall|x: i64| #[trigger] (**rtree).as_set().contains(x)
                                implies x < possible by {
                                assert(tree@.contains(x));
                            }
                        }
                    }
                    let r = Self::member_impl(&**rtree, elt, possible);
                    proof {
                        if (**ltree)@.contains(elt) {
                            assert(elt < *val);
                        }
                    }
                    r
                }
            },
        }
    }

    /// Whether the value is in the tree.
    pub fn member(&self, elt: i64) -> (r: bool)
        requires
            self.wf(),
        ensures
            r == self@.contains(elt),
    {
        match self {
            Tree::Empty => false,
            Tree::Node { val, .. } => {
                let r = Self::member_impl(self, elt, *val);
                proof {
                    assert(self@.contains(*val));
                }
                r
            },
        }
    }

    fn insert_impl(tree: &Tree, elt: i64, possible: i64) -> (r: Option<Tree>)
        requires
            tree.wf(),
            probe_inv(tree, elt, possible),
        ensures
            r is None <==> (tree@.contains(elt) || elt == possible),
            r matches Some(nt) ==> nt.wf() && nt@ == tree@.insert(elt),
        decreases *tree,
    {
        match tree {
            Tree::Empty => {
                if elt == possible {
                    None
                } else {
                    let nt = Tree::Node {
                        val: elt,
                        ltree: Rc::new(Tree::Empty),
                        rtree: Rc::new(Tree::Empty),
                    };
                    proof {
                        assert(nt@ =~= tree@.insert(elt));
                    }
                    Some(nt)
                }
            },
            Tree::Node { val, ltree, rtree } => {
                if elt <= *val {
                    proof {
                        if elt == possible && !tree@.contains(elt) {
                            assert(tree@.contains(*val));
                        }
                        if (**rtree)@.contains(elt) {
                            assert(elt > *val);
                        }
                    }
                    match Self::insert_impl(&**ltree, elt, *val) {
                        None => None,
                        Some(x) => {
                            let nt = Tree::Node {
                                val: *val,
                                ltree: Rc::new(x),
                                rtree: Rc::clone(rtree),
                            };
                            proof {
                                assert(nt@ =~= tree@.insert(elt));
                            }
                            Some(nt)
                        },
                    }
                } else {
                    proof {
                        if (**ltree)@.contains(elt) {
                            assert(elt < *val);
                        }
                        if elt <= possible {
                            assert forall|x: i64| #[trigger] (**rtree).as_set().contains(x)
                                implies x < possible by {
                                assert(tree@.contains(x));
                            }
                        }
                    }
                    match Self::insert_impl(&**rtree, elt, possible) {
                        None => None,
                        Some(x) => {
                            let nt = Tree::Node {
                                val: *val,
                                ltree: Rc::clone(ltree),
                                rtree: Rc::new(x),
                            };
                            proof {
                                assert(nt@ =~= tree@.insert(elt));
                            }
                            Some(nt)
                        },
                    }
                }
            },
        }
    }

    /// Add a value to the tree.  If the value is already present the
    /// tree is returned unchanged, structurally equal to `self`.
    pub fn insert(&self, elt: i64) -> (r: Tree)
        requires
            self.wf(),
        ensures
            r.wf(),
            r@ == self@.insert(elt),
            self@.contains(elt) ==> r == *self,
    {
        match self {
            Tree::Empty => {
                let r = Tree::Node {
                    val: elt,
                    ltree: Rc::new(Tree::Empty),
                    rtree: Rc::new(Tree::Empty),
                };
                proof {
                    assert(r@ =~= self@.insert(elt));
                }
                r
            },
            Tree::Node { val, .. } => {
                proof {
                    assert(self@.contains(*val));
                }
                match Self::insert_impl(self, elt, *val) {
                    Some(x) => {
                        x
                    },
                    None => {
                        let r = self.clone();
                        proof {
                            assert(r@ =~= self@.insert(elt));
                        }
                        r
                    },
                }
            },
        }
    }
}

/// A value just inserted is a member; a value distinct from it is a
/// member of the new tree exactly when it was one of the old tree.
pub proof fn lemma_member_after_insert(t: &Tree, nt: &Tree, elt: i64)
    requires
        nt@ == t@.insert(elt),
    ensures
        nt@.contains(elt),
        forall|x: i64| x != elt ==> (#[trigger] nt@.contains(x) == t@.contains(x)),
{
}

/// Inserting a value twice changes nothing beyond the first insertion:
/// the set of stored values stays the same.
pub proof fn lemma_insert_twice(t: &Tree, once: &Tree, twice: &Tree, elt: i64)
    requires
        once@ == t@.insert(elt),
        twice@ == once@.insert(elt),
    ensures
        twice@ == once@,
{
    assert(twice@ =~= once@);
}

/// A complete tree of the given depth holding one repeated value; both
/// children of every node are the same shared subtree.
pub fn complete(elt: i64, len: u32) -> (r: Tree)
    ensures
        r.height() == len,
        r.node_count() == (pow2(len as nat) - 1) as nat,
        r@ == (if len == 0 {
            Set::<i64>::empty()
        } else {
            Set::<i64>::empty().insert(elt)
        }),
    decreases len,
{
    if len == 0 {
        proof {
            vstd::arithmetic::power2::lemma2_to64();
            assert(Tree::Empty@ =~= Set::<i64>::empty());
        }
        Tree::Empty
    } else {
        let subtree = Rc::new(complete(elt, len - 1));
        let r = Tree::Node { val: elt, ltree: Rc::clone(&subtree), rtree: subtree };
        proof {
            lemma_pow2_unfold(len as nat);
            lemma_pow2_pos((len - 1) as nat);
            assert(r@ =~= Set::<i64>::empty().insert(elt));
        }
        r
    }
}

/// A tree holding one repeated value with exactly the given number of
/// nodes, splitting the count as evenly as possible between the two
/// children at every node and sharing one subtree when the halves are
/// equal.
pub fn complete_size(elt: i64, size: u32) -> (r: Tree)
    ensures
        r.node_count() == size as nat,
        r.balanced(),
        r@ == (if size == 0 {
            Set::<i64>::empty()
        } else {
            Set::<i64>::empty().insert(elt)
        }),
    decreases size,
{
    if size == 0 {
        proof {
            assert(Tree::Empty@ =~= Set::<i64>::empty());
        }
        Tree::Empty
    } else {
        let lsize = (size - 1) / 2;
        let rsize = size - 1 - lsize;
        if lsize == rsize {
            let subtree = Rc::new(complete_size(elt, lsize));
            let r = Tree::Node { val: elt, ltree: Rc::clone(&subtree), rtree: subtree };
            proof {
                assert(r@ =~= Set::<i64>::empty().insert(elt));
            }
            r
        } else {
            let lt = complete_size(elt, lsize);
            let rt = complete_size(elt, rsize);
            let r = Tree::Node { val: elt, ltree: Rc::new(lt), rtree: Rc::new(rt) };
            proof {
                assert(r@ =~= Set::<i64>::empty().insert(elt));
            }
            r
        }
    }
}

} // verus!
