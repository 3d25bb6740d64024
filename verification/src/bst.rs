//! A plain persistent binary search tree over `i64` values, with the
//! straightforward compare-at-every-node `insert` and `member`.
//!
//! The threaded variant in [`crate::tree`] reaches the same contracts
//! with one equality test per operation; this one is the textbook
//! version.  Children are owned boxes, so the untouched sibling of a
//! rebuilt path is copied rather than shared.

use vstd::prelude::*;

verus! {

/// A persistent binary search tree with owned children.
pub enum Tree {
    Node { val: i64, ltree: Box<Tree>, rtree: Box<Tree> },
    Empty,
}

impl Tree {
    /// The set of values stored in the tree.
    pub open spec fn as_set(&self) -> Set<i64>
        decreases self,
    {
        match self {
            Tree::Empty => Set::empty(),
            Tree::Node { val, ltree, rtree } => {
                (**ltree).as_set().union((**rtree).as_set()).insert(*val)
            },
        }
    }

    /// The search-tree order: at every node, the left subtree holds only
    /// strictly smaller values and the right subtree only strictly
    /// larger ones.
    pub open spec fn wf(&self) -> bool
        decreases self,
    {
        match self {
            Tree::Empty => true,
            Tree::Node { val, ltree, rtree } => {
                &&& (**ltree).wf()
                &&& (**rtree).wf()
                &&& (forall|x: i64| #[trigger] (**ltree).as_set().contains(x) ==> x < *val)
                &&& (forall|x: i64| #[trigger] (**rtree).as_set().contains(x) ==> x > *val)
            },
        }
    }
}

impl View for Tree {
    type V = Set<i64>;

    open spec fn view(&self) -> Set<i64> {
        self.as_set()
    }
}

/// A structurally equal copy of the tree, node by node.
fn clone_tree(t: &Tree) -> (r: Tree)
    ensures
        r == *t,
    decreases *t,
{
    match t {
        Tree::Empty => Tree::Empty,
        Tree::Node { val, ltree, rtree } => Tree::Node {
            val: *val,
            ltree: Box::new(clone_tree(&**ltree)),
            rtree: Box::new(clone_tree(&**rtree)),
        },
    }
}

impl Clone for Tree {
    /// A deep copy, structurally equal to the original.
    fn clone(&self) -> (res: Self)
        ensures
            res == *self,
    {
        clone_tree(self)
    }
}

impl Tree {
    /// The tree with no values.
    pub fn empty() -> (r: Tree)
        ensures
            r.wf(),
            r@ == Set::<i64>::empty(),
            r is Empty,
    {
        Tree::Empty
    }

    /// Add a value to the tree.  If the value is already present the
    /// tree is returned unchanged, structurally equal to `self`.
    pub fn insert(&self, elt: i64) -> (r: Tree)
        requires
            self.wf(),
        ensures
            r.wf(),
            r@ == self@.insert(elt),
            self@.contains(elt) ==> r == *self,
        decreases *self,
    {
        match self {
            Tree::Empty => {
                let r = Tree::Node {
                    val: elt,
                    ltree: Box::new(Tree::Empty),
                    rtree: Box::new(Tree::Empty),
                };
                proof {
                    assert(r@ =~= self@.insert(elt));
                }
                r
            },
            Tree::Node { val, ltree, rtree } => {
                if elt < *val {
                    proof {
                        if (**rtree)@.contains(elt) {
                            assert(elt > *val);
                        }
                    }
                    let nl = (**ltree).insert(elt);
                    let r = Tree::Node {
                        val: *val,
                        ltree: Box::new(nl),
                        rtree: Box::new(clone_tree(&**rtree)),
                    };
                    proof {
                        if !self@.contains(elt) {
                            assert(r@ =~= self@.insert(elt));
                        } else {
                            assert((**ltree)@.contains(elt));
                            assert(r@ =~= self@.insert(elt));
                        }
                    }
                    r
                } else if elt > *val {
                    proof {
                        if (**ltree)@.contains(elt) {
                            assert(elt < *val);
                        }
                    }
                    let nr = (**rtree).insert(elt);
                    let r = Tree::Node {
                        val: *val,
                        ltree: Box::new(clone_tree(&**ltree)),
                        rtree: Box::new(nr),
                    };
                    proof {
                        if !self@.contains(elt) {
                            assert(r@ =~= self@.insert(elt));
                        } else {
                            assert((**rtree)@.contains(elt));
                            assert(r@ =~= self@.insert(elt));
                        }
                    }
                    r
                } else {
                    let r = self.clone();
                    proof {
                        assert(self@.contains(elt));
                        assert(r@ =~= self@.insert(elt));
                    }
                    r
                }
            },
        }
    }

    /// Whether the value is in the tree.
    pub fn member(&self, elt: i64) -> (r: bool)
        requires
            self.wf(),
        ensures
            r == self@.contains(elt),
        decreases *self,
    {
        match self {
            Tree::Empty => false,
            Tree::Node { val, ltree, rtree } => {
                if elt < *val {
                    proof {
                        if (**rtree)@.contains(elt) {
                            assert(elt > *val);
                        }
                    }
                    (**ltree).member(elt)
                } else if elt > *val {
                    proof {
                        if (**ltree)@.contains(elt) {
                            assert(elt < *val);
                        }
                    }
                    (**rtree).member(elt)
                } else {
                    true
                }
            },
        }
    }
}

} // verus!
