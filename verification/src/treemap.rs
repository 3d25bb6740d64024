//! A persistent finite map, as a binary search tree whose entries are
//! key/value pairs ordered by key alone.
//!
//! The key type supplies a total order on its mathematical model through
//! [`crate::order::TotalOrdered`]; the map's abstract view is a `Map`
//! from key models to values.  `bind` follows the same duplicate-skip
//! rule as the search tree: binding a key that is already present is a
//! no-op that leaves the prior binding in place, so the first successful
//! bind of a key governs.

use crate::order::{Cmp, TotalOrdered};
use std::rc::Rc;
use vstd::prelude::*;

verus! {

/// A persistent map whose entries are key/value pairs ordered by key.
/// `Node` children are reference-counted, so an update shares every
/// untouched subtree with the previous version.
pub enum TreeMap<K, V> {
    Node { key: K, val: V, ltree: Rc<TreeMap<K, V>>, rtree: Rc<TreeMap<K, V>> },
    Empty,
}

impl<K: TotalOrdered, V> TreeMap<K, V> {
    /// The finite map stored in the tree, keyed by key models.
    pub open spec fn as_map(&self) -> Map<K::Model, V>
        decreases self,
    {
        match self {
            TreeMap::Empty => Map::empty(),
            TreeMap::Node { key, val, ltree, rtree } => {
                (**ltree).as_map().union_prefer_right((**rtree).as_map()).insert(
                    key.model(),
                    *val,
                )
            },
        }
    }

    /// The search-tree order on keys: at every node, the left subtree
    /// binds only strictly smaller keys and the right subtree only
    /// strictly larger ones.
    pub open spec fn wf(&self) -> bool
        decreases self,
    {
        match self {
            TreeMap::Empty => true,
            TreeMap::Node { key, ltree, rtree, .. } => {
                &&& (**ltree).wf()
                &&& (**rtree).wf()
                &&& (forall|m: K::Model| #[trigger]
                    (**ltree).as_map().dom().contains(m) ==> K::le(m, key.model()) && m
                        != key.model())
                &&& (forall|m: K::Model| #[trigger]
                    (**rtree).as_map().dom().contains(m) ==> K::le(key.model(), m) && m
                        != key.model())
            },
        }
    }
}

impl<K: TotalOrdered, V> View for TreeMap<K, V> {
    type V = Map<K::Model, V>;

    open spec fn view(&self) -> Map<K::Model, V> {
        self.as_map()
    }
}

impl<K: TotalOrdered, V: Copy> Clone for TreeMap<K, V> {
    /// Duplicates the root with an equal-model key; the subtrees are
    /// shared by reference count, so the clone has the same view and
    /// stays well-formed.
    fn clone(&self) -> (res: Self)
        ensures
            res@ == self@,
            self.wf() ==> res.wf(),
    {
        match self {
            TreeMap::Empty => TreeMap::Empty,
            TreeMap::Node { key, val, ltree, rtree } => {
                let res = TreeMap::Node {
                    key: key.clone_key(),
                    val: *val,
                    ltree: Rc::clone(ltree),
                    rtree: Rc::clone(rtree),
                };
                proof {
                    assert(res@ =~= self@);
                }
                res
            },
        }
    }
}

impl<K: TotalOrdered, V: Copy> TreeMap<K, V> {
    /// The map with no bindings.
    pub fn empty() -> (r: TreeMap<K, V>)
        ensures
            r.wf(),
            r@ == Map::<K::Model, V>::empty(),
            r is Empty,
    {
        TreeMap::Empty
    }

    /// Bind a value to a key.  If the key is already bound the map is
    /// returned with the same view, and the prior binding stays in
    /// place.
    pub fn bind(&self, key: K, val: V) -> (r: TreeMap<K, V>)
        requires
            self.wf(),
        ensures
            r.wf(),
            !self@.dom().contains(key.model()) ==> r@ == self@.insert(key.model(), val),
            self@.dom().contains(key.model()) ==> r@ == self@,
        decreases *self,
    {
        let ghost km = key.model();
        match self {
            TreeMap::Empty => {
                let r = TreeMap::Node {
                    key,
                    val,
                    ltree: Rc::new(TreeMap::Empty),
                    rtree: Rc::new(TreeMap::Empty),
                };
                proof {
                    assert(r@ =~= self@.insert(km, val));
                }
                r
            },
            TreeMap::Node { key: k, val: v, ltree, rtree } => match key.cmp_key(k) {
                Cmp::Less => {
                    proof {
                        if (**rtree)@.dom().contains(km) {
                            K::le_antisym(km, k.model());
                        }
                    }
                    let nl = (**ltree).bind(key, val);
                    let r = TreeMap::Node {
                        key: k.clone_key(),
                        val: *v,
                        ltree: Rc::new(nl),
                        rtree: Rc::clone(rtree),
                    };
                    proof {
                        assert forall|m: K::Model| #[trigger] nl@.dom().contains(m) implies K::le(
                            m,
                            k.model(),
                        ) && m != k.model() by {
                            if !(**ltree)@.dom().contains(m) {
                                assert(m == km);
                            }
                        }
                        if !self@.dom().contains(km) {
                            assert(r@ =~= self@.insert(km, val));
                        } else {
                            assert((**ltree)@.dom().contains(km));
                            assert(r@ =~= self@);
                        }
                    }
                    r
                },
                Cmp::Greater => {
                    proof {
                        if (**ltree)@.dom().contains(km) {
                            K::le_antisym(k.model(), km);
                        }
                    }
                    let nr = (**rtree).bind(key, val);
                    let r = TreeMap::Node {
                        key: k.clone_key(),
                        val: *v,
                        ltree: Rc::clone(ltree),
                        rtree: Rc::new(nr),
                    };
                    proof {
                        assert forall|m: K::Model| #[trigger] nr@.dom().contains(m) implies K::le(
                            k.model(),
                            m,
                        ) && m != k.model() by {
                            if !(**rtree)@.dom().contains(m) {
                                assert(m == km);
                            }
                        }
                        if !self@.dom().contains(km) {
                            assert(r@ =~= self@.insert(km, val));
                        } else {
                            assert((**rtree)@.dom().contains(km));
                            assert(r@ =~= self@);
                        }
                    }
                    r
                },
                Cmp::Equal => {
                    let r = self.clone();
                    proof {
                        assert(self@.dom().contains(km));
                    }
                    r
                },
            },
        }
    }

    /// Look up the value bound to a key, or nothing if the key is
    /// unbound.
    pub fn lookup(&self, key: &K) -> (r: Option<&V>)
        requires
            self.wf(),
        ensures
            match r {
                Some(v) => self@.dom().contains(key.model()) && *v == self@[key.model()],
                None => !self@.dom().contains(key.model()),
            },
        decreases *self,
    {
        match self {
            TreeMap::Empty => None,
            TreeMap::Node { key: k, val: v, ltree, rtree } => match key.cmp_key(k) {
                Cmp::Less => {
                    proof {
                        if (**rtree)@.dom().contains(key.model()) {
                            K::le_antisym(key.model(), k.model());
                        }
                    }
                    (**ltree).lookup(key)
                },
                Cmp::Greater => {
                    proof {
                        if (**ltree)@.dom().contains(key.model()) {
                            K::le_antisym(k.model(), key.model());
                        }
                    }
                    (**rtree).lookup(key)
                },
                Cmp::Equal => {
                    proof {
                        if (**ltree)@.dom().contains(key.model()) {
                            K::le_antisym(k.model(), key.model());
                        }
                        if (**rtree)@.dom().contains(key.model()) {
                            K::le_antisym(key.model(), k.model());
                        }
                    }
                    Some(v)
                },
            },
        }
    }
}

/// Binding a fresh key then looking it up yields the bound value, and
/// leaves every other key bound as before; the empty map binds no key.
pub proof fn lemma_bind_lookup<K: TotalOrdered, V>(
    m: &TreeMap<K, V>,
    nm: &TreeMap<K, V>,
    key: K::Model,
    val: V,
)
    requires
        !m@.dom().contains(key),
        nm@ == m@.insert(key, val),
    ensures
        nm@.dom().contains(key),
        nm@[key] == val,
        forall|k: K::Model| k != key ==> (#[trigger] nm@.dom().contains(k) == m@.dom().contains(
            k,
        )),
        forall|k: K::Model| k != key && #[trigger] nm@.dom().contains(k) ==> nm@[k] == m@[k],
{
}

/// No lookup in the empty map succeeds.
pub proof fn lemma_lookup_empty<K: TotalOrdered, V>(m: &TreeMap<K, V>, key: K::Model)
    requires
        m is Empty,
    ensures
        !m@.dom().contains(key),
{
}

} // verus!
