//! In-place LIFO stacks: `cons` and `tail` update the receiver through
//! `&mut` instead of returning a new stack.
//!
//! As in [`crate::stack`], two implementations share one contract: a
//! hand-made singly-linked list of owned nodes and a vector whose first
//! element is the top.  The abstract view is the sequence of elements,
//! top first.

use vstd::prelude::*;

verus! {

/// A node of the hand-made singly-linked stack.
pub enum StackNode<T> {
    Cons(T, Box<StackNode<T>>),
    Nil,
}

/// The sequence of elements hanging off a node, front first.
pub open spec fn node_seq<T>(n: &StackNode<T>) -> Seq<T>
    decreases n,
{
    match n {
        StackNode::Nil => Seq::empty(),
        StackNode::Cons(x, rest) => seq![*x] + node_seq(&**rest),
    }
}

/// An in-place stack backed by a singly-linked list of owned nodes.
pub struct CustomStack<T> {
    node: StackNode<T>,
}

impl<T> View for CustomStack<T> {
    type V = Seq<T>;

    closed spec fn view(&self) -> Seq<T> {
        node_seq(&self.node)
    }
}

impl<T> CustomStack<T> {
    /// The stack with no elements.
    pub fn empty() -> (r: Self)
        ensures
            r@ == Seq::<T>::empty(),
    {
        CustomStack { node: StackNode::Nil }
    }

    /// Whether the stack holds no elements.
    pub fn is_empty(&self) -> (r: bool)
        ensures
            r == (self@.len() == 0),
    {
        match self.node {
            StackNode::Nil => true,
            _ => false,
        }
    }

    /// Push an element on top of the stack in place.
    pub fn cons(&mut self, elt: T)
        ensures
            final(self)@ == seq![elt] + old(self)@,
    {
        let mut tmp = StackNode::Nil;
        std::mem::swap(&mut self.node, &mut tmp);
        self.node = StackNode::Cons(elt, Box::new(tmp));
    }

    /// The top element, or nothing if the stack is empty.
    pub fn head(&self) -> (r: Option<&T>)
        ensures
            match r {
                None => self@.len() == 0,
                Some(x) => self@.len() > 0 && *x == self@[0],
            },
    {
        match &self.node {
            StackNode::Nil => None,
            StackNode::Cons(x, _) => Some(x),
        }
    }

    /// Drop the top element in place.  Returns whether there was one;
    /// an empty stack is left unchanged.
    pub fn tail(&mut self) -> (r: bool)
        ensures
            r == (old(self)@.len() > 0),
            r ==> final(self)@ == old(self)@.subrange(1, old(self)@.len() as int),
            !r ==> final(self)@ == old(self)@,
    {
        let mut tmp = StackNode::Nil;
        std::mem::swap(&mut self.node, &mut tmp);
        match tmp {
            StackNode::Nil => false,
            StackNode::Cons(_, rest) => {
                self.node = *rest;
                proof {
                    assert(final(self)@ =~= old(self)@.subrange(1, old(self)@.len() as int));
                }
                true
            },
        }
    }
}

/// An in-place stack backed by a vector whose first element is the top.
pub struct LinkedListStack<T> {
    node: Vec<T>,
}

impl<T> View for LinkedListStack<T> {
    type V = Seq<T>;

    closed spec fn view(&self) -> Seq<T> {
        self.node@
    }
}

impl<T> LinkedListStack<T> {
    /// The stack with no elements.
    pub fn empty() -> (r: Self)
        ensures
            r@ == Seq::<T>::empty(),
    {
        LinkedListStack { node: Vec::new() }
    }

    /// Whether the stack holds no elements.
    pub fn is_empty(&self) -> (r: bool)
        ensures
            r == (self@.len() == 0),
    {
        self.node.is_empty()
    }

    /// Push an element on top of the stack in place.
    pub fn cons(&mut self, elt: T)
        ensures
            final(self)@ == seq![elt] + old(self)@,
    {
        self.node.insert(0, elt);
        proof {
            assert(final(self)@ =~= seq![elt] + old(self)@);
        }
    }

    /// The top element, or nothing if the stack is empty.
    pub fn head(&self) -> (r: Option<&T>)
        ensures
            match r {
                None => self@.len() == 0,
                Some(x) => self@.len() > 0 && *x == self@[0],
            },
    {
        if self.node.len() == 0 {
            None
        } else {
            Some(&self.node[0])
        }
    }

    /// Drop the top element in place.  Returns whether there was one;
    /// an empty stack is left unchanged.
    pub fn tail(&mut self) -> (r: bool)
        ensures
            r == (old(self)@.len() > 0),
            r ==> final(self)@ == old(self)@.subrange(1, old(self)@.len() as int),
            !r ==> final(self)@ == old(self)@,
    {
        if self.node.len() == 0 {
            false
        } else {
            self.node.remove(0);
            proof {
                assert(final(self)@ =~= old(self)@.subrange(1, old(self)@.len() as int));
            }
            true
        }
    }
}

} // verus!
