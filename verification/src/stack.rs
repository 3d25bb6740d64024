//! Persistent LIFO stacks: `cons`, `head` and `tail` never modify the
//! receiver; `cons` and `tail` return a new stack.
//!
//! Two implementations share one contract: `CustomStack` is a hand-made
//! singly-linked list of owned nodes, `LinkedListStack` keeps the
//! elements in a vector with the top at index zero.  The abstract view
//! of either stack is the sequence of its elements, top first.

use vstd::prelude::*;

verus! {

/// A node of the hand-made singly-linked stack.
pub enum StackNode<T> {
    Cons(T, Box<StackNode<T>>),
    Nil,
}

/// The sequence of elements hanging off a node, front first.
pub open spec fn node_seq<T>(n: &StackNode<T>) -> Seq<T>
    decreases n,
{
    match n {
        StackNode::Nil => Seq::empty(),
        StackNode::Cons(x, rest) => seq![*x] + node_seq(&**rest),
    }
}

/// A persistent stack backed by a singly-linked list of owned nodes.
pub struct CustomStack<T> {
    node: StackNode<T>,
}

impl<T> View for CustomStack<T> {
    type V = Seq<T>;

    closed spec fn view(&self) -> Seq<T> {
        node_seq(&self.node)
    }
}

/// A structurally equal copy of a node chain.
fn clone_node<T: Copy>(n: &StackNode<T>) -> (r: StackNode<T>)
    ensures
        r == *n,
    decreases *n,
{
    match n {
        StackNode::Nil => StackNode::Nil,
        StackNode::Cons(x, rest) => StackNode::Cons(*x, Box::new(clone_node(&**rest))),
    }
}

impl<T: Copy> CustomStack<T> {
    /// The stack with no elements.
    pub fn empty() -> (r: Self)
        ensures
            r@ == Seq::<T>::empty(),
    {
        CustomStack { node: StackNode::Nil }
    }

    /// Whether the stack holds no elements.
    pub fn is_empty(&self) -> (r: bool)
        ensures
            r == (self@.len() == 0),
    {
        match self.node {
            StackNode::Nil => true,
            _ => false,
        }
    }

    /// The stack with the element pushed on top; the rest is shared
    /// content-wise with `self`, which is left untouched.
    pub fn cons(&self, elt: T) -> (r: Self)
        ensures
            r@ == seq![elt] + self@,
    {
        CustomStack { node: StackNode::Cons(elt, Box::new(clone_node(&self.node))) }
    }

    /// The top element, or nothing if the stack is empty.
    pub fn head(&self) -> (r: Option<&T>)
        ensures
            match r {
                None => self@.len() == 0,
                Some(x) => self@.len() > 0 && *x == self@[0],
            },
    {
        match &self.node {
            StackNode::Nil => None,
            StackNode::Cons(x, _) => Some(x),
        }
    }

    /// The stack below the top element, or nothing if the stack is
    /// empty.
    pub fn tail(&self) -> (r: Option<Self>)
        ensures
            match r {
                None => self@.len() == 0,
                Some(s) => self@.len() > 0 && s@ == self@.subrange(1, self@.len() as int),
            },
    {
        match &self.node {
            StackNode::Nil => None,
            StackNode::Cons(_, rest) => {
                let s = CustomStack { node: clone_node(&**rest) };
                proof {
                    assert(s@ =~= self@.subrange(1, self@.len() as int));
                }
                Some(s)
            },
        }
    }
}

/// Node chains with the same element sequence are equal.
proof fn lemma_node_seq_injective<T>(a: &StackNode<T>, b: &StackNode<T>)
    requires
        node_seq(a) == node_seq(b),
    ensures
        a == b,
    decreases *a,
{
    match a {
        StackNode::Nil => {
            match b {
                StackNode::Nil => {},
                StackNode::Cons(y, br) => {
                    assert(node_seq(b).len() > 0);
                },
            }
        },
        StackNode::Cons(x, ar) => {
            match b {
                StackNode::Nil => {
                    assert(node_seq(a).len() > 0);
                },
                StackNode::Cons(y, br) => {
                    assert(node_seq(a)[0] == *x);
                    assert(node_seq(b)[0] == *y);
                    assert(node_seq(&**ar) =~= node_seq(a).subrange(1, node_seq(a).len() as int));
                    assert(node_seq(&**br) =~= node_seq(b).subrange(1, node_seq(b).len() as int));
                    lemma_node_seq_injective(&**ar, &**br);
                },
            }
        },
    }
}

/// Stacks with the same abstract sequence are structurally equal.
pub proof fn lemma_stack_view_injective<T>(a: &CustomStack<T>, b: &CustomStack<T>)
    requires
        a@ == b@,
    ensures
        a == b,
{
    lemma_node_seq_injective(&a.node, &b.node);
}

/// The LIFO law: if `c` is `s` with `x` pushed on top, then the head of
/// `c` is `x` and the tail of `c` is structurally equal to `s`.
pub proof fn lemma_stack_lifo<T>(s: &CustomStack<T>, c: &CustomStack<T>, t: &CustomStack<T>, x: T)
    requires
        c@ == seq![x] + s@,
        t@ == c@.subrange(1, c@.len() as int),
    ensures
        c@.len() > 0,
        c@[0] == x,
        t == s,
{
    assert(t@ =~= s@);
    lemma_stack_view_injective(t, s);
}

/// A persistent stack backed by a vector whose first element is the top.
pub struct LinkedListStack<T> {
    node: Vec<T>,
}

impl<T> View for LinkedListStack<T> {
    type V = Seq<T>;

    closed spec fn view(&self) -> Seq<T> {
        self.node@
    }
}

/// An element-for-element copy of a vector.
fn copy_vec<T: Copy>(v: &Vec<T>) -> (r: Vec<T>)
    ensures
        r@ == v@,
{
    let mut r: Vec<T> = Vec::new();
    let mut i: usize = 0;
    while i < v.len()
        invariant
            i <= v@.len(),
            r@ == v@.subrange(0, i as int),
        decreases v@.len() - i,
    {
        r.push(v[i]);
        proof {
            assert(r@ =~= v@.subrange(0, i as int + 1));
        }
        i = i + 1;
    }
    proof {
        assert(r@ =~= v@);
    }
    r
}

impl<T: Copy> LinkedListStack<T> {
    /// The stack with no elements.
    pub fn empty() -> (r: Self)
        ensures
            r@ == Seq::<T>::empty(),
    {
        LinkedListStack { node: Vec::new() }
    }

    /// Whether the stack holds no elements.
    pub fn is_empty(&self) -> (r: bool)
        ensures
            r == (self@.len() == 0),
    {
        self.node.is_empty()
    }

    /// The stack with the element pushed on top; `self` is untouched.
    pub fn cons(&self, elt: T) -> (r: Self)
        ensures
            r@ == seq![elt] + self@,
    {
        let mut copy = copy_vec(&self.node);
        copy.insert(0, elt);
        proof {
            assert(copy@ =~= seq![elt] + self@);
        }
        LinkedListStack { node: copy }
    }

    /// The top element, or nothing if the stack is empty.
    pub fn head(&self) -> (r: Option<&T>)
        ensures
            match r {
                None => self@.len() == 0,
                Some(x) => self@.len() > 0 && *x == self@[0],
            },
    {
        if self.node.len() == 0 {
            None
        } else {
            Some(&self.node[0])
        }
    }

    /// The stack below the top element, or nothing if the stack is
    /// empty.
    pub fn tail(&self) -> (r: Option<Self>)
        ensures
            match r {
                None => self@.len() == 0,
                Some(s) => self@.len() > 0 && s@ == self@.subrange(1, self@.len() as int),
            },
    {
        if self.node.len() == 0 {
            None
        } else {
            let mut copy = copy_vec(&self.node);
            copy.remove(0);
            proof {
                assert(copy@ =~= self@.subrange(1, self@.len() as int));
            }
            Some(LinkedListStack { node: copy })
        }
    }
}

} // verus!
