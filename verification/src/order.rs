//! Total orders on key types, for the tree-backed finite map.
//!
//! A key type exposes a mathematical model of itself together with a
//! total order on models: an integer is its own model, a string's model
//! is its sequence of characters under the lexicographic order.  The
//! order is stated on models rather than on the values themselves, so
//! that two values representing the same model (two equal strings) are
//! the same key.

use vstd::prelude::*;

verus! {

broadcast use vstd::utf8::char_u32_cast;

/// The result of a three-way comparison of two keys.
pub enum Cmp {
    Less,
    Equal,
    Greater,
}

/// A key type with a total order on its mathematical model.
pub trait TotalOrdered: Sized {
    /// The type of the model a key is compared by.
    type Model;

    /// The model of this key.
    spec fn model(&self) -> Self::Model;

    /// The order on models: whether `a` comes no later than `b`.
    spec fn le(a: Self::Model, b: Self::Model) -> bool;

    /// The order is reflexive.
    proof fn le_refl(a: Self::Model)
        ensures
            Self::le(a, a),
    ;

    /// The order is transitive.
    proof fn le_trans(a: Self::Model, b: Self::Model, c: Self::Model)
        requires
            Self::le(a, b),
            Self::le(b, c),
        ensures
            Self::le(a, c),
    ;

    /// Any two models are comparable.
    proof fn le_total(a: Self::Model, b: Self::Model)
        ensures
            Self::le(a, b) || Self::le(b, a),
    ;

    /// Models below each other are equal.
    proof fn le_antisym(a: Self::Model, b: Self::Model)
        requires
            Self::le(a, b),
            Self::le(b, a),
        ensures
            a == b,
    ;

    /// Three-way comparison, faithful to the order on the models.
    fn cmp_key(&self, other: &Self) -> (c: Cmp)
        ensures
            match c {
                Cmp::Less => Self::le(self.model(), other.model()) && self.model()
                    != other.model(),
                Cmp::Equal => self.model() == other.model(),
                Cmp::Greater => Self::le(other.model(), self.model()) && self.model()
                    != other.model(),
            },
    ;

    /// A duplicate of the key with the same model: the cheap duplication
    /// a persistent structure needs when it rebuilds a path.
    fn clone_key(&self) -> (r: Self)
        ensures
            r.model() == self.model(),
    ;
}

impl TotalOrdered for i64 {
    type Model = int;

    open spec fn model(&self) -> int {
        *self as int
    }

    open spec fn le(a: int, b: int) -> bool {
        a <= b
    }

    proof fn le_refl(a: int) {
    }

    proof fn le_trans(a: int, b: int, c: int) {
    }

    proof fn le_total(a: int, b: int) {
    }

    proof fn le_antisym(a: int, b: int) {
    }

    fn cmp_key(&self, other: &Self) -> (c: Cmp) {
        if *self < *other {
            Cmp::Less
        } else if *self > *other {
            Cmp::Greater
        } else {
            Cmp::Equal
        }
    }

    fn clone_key(&self) -> (r: Self) {
        *self
    }
}

/// The lexicographic order on character sequences, by code point: the
/// empty sequence comes first, and otherwise the first characters
/// decide, with ties settled by the rest.
pub open spec fn lex_le(a: Seq<char>, b: Seq<char>) -> bool
    decreases a.len(),
{
    if a.len() == 0 {
        true
    } else if b.len() == 0 {
        false
    } else if (a[0] as u32) < (b[0] as u32) {
        true
    } else if (b[0] as u32) < (a[0] as u32) {
        false
    } else {
        lex_le(a.subrange(1, a.len() as int), b.subrange(1, b.len() as int))
    }
}

/// The lexicographic order is reflexive.
proof fn lemma_lex_le_refl(a: Seq<char>)
    ensures
        lex_le(a, a),
    decreases a.len(),
{
    if a.len() > 0 {
        lemma_lex_le_refl(a.subrange(1, a.len() as int));
    }
}

/// Any two character sequences are lexicographically comparable.
proof fn lemma_lex_le_total(a: Seq<char>, b: Seq<char>)
    ensures
        lex_le(a, b) || lex_le(b, a),
    decreases a.len(),
{
    if a.len() > 0 && b.len() > 0 && (a[0] as u32) == (b[0] as u32) {
        lemma_lex_le_total(a.subrange(1, a.len() as int), b.subrange(1, b.len() as int));
    }
}

/// Character sequences lexicographically below each other are equal.
proof fn lemma_lex_le_antisym(a: Seq<char>, b: Seq<char>)
    requires
        lex_le(a, b),
        lex_le(b, a),
    ensures
        a == b,
    decreases a.len(),
{
    if a.len() == 0 {
        assert(b.len() == 0);
        assert(a =~= b);
    } else {
        assert(b.len() > 0);
        assert((a[0] as u32) == (b[0] as u32));
        let ta = a.subrange(1, a.len() as int);
        let tb = b.subrange(1, b.len() as int);
        lemma_lex_le_antisym(ta, tb);
        assert(ta.len() == a.len() - 1);
        assert(tb.len() == b.len() - 1);
        assert(a.len() == b.len());
        assert forall|i: int| 0 <= i < a.len() implies a[i] == b[i] by {
            if i > 0 {
                assert(a[i] == ta[i - 1]);
                assert(b[i] == tb[i - 1]);
            } else {
                vstd::utf8::char_u32_cast(a[0], a[0] as u32);
                vstd::utf8::char_u32_cast(b[0], b[0] as u32);
            }
        }
        assert(a =~= b);
    }
}

/// The lexicographic order is transitive.
proof fn lemma_lex_le_trans(a: Seq<char>, b: Seq<char>, c: Seq<char>)
    requires
        lex_le(a, b),
        lex_le(b, c),
    ensures
        lex_le(a, c),
    decreases a.len(),
{
    if a.len() > 0 {
        assert(b.len() > 0);
        assert(c.len() > 0);
        if (a[0] as u32) == (c[0] as u32) {
            assert((a[0] as u32) == (b[0] as u32));
            lemma_lex_le_trans(
                a.subrange(1, a.len() as int),
                b.subrange(1, b.len() as int),
                c.subrange(1, c.len() as int),
            );
        }
    }
}

/// When two sequences agree on a prefix and the first either ends there
/// or continues with a smaller character, the first comes
/// lexicographically no later.
proof fn lemma_lex_le_from_prefix(a: Seq<char>, b: Seq<char>, i: int)
    requires
        0 <= i <= a.len(),
        i <= b.len(),
        forall|j: int| 0 <= j < i ==> a[j] == b[j],
        (i == a.len() && i < b.len()) || (i < a.len() && i < b.len() && (a[i] as u32) < (
        b[i] as u32)),
    ensures
        lex_le(a, b),
    decreases i,
{
    if i == 0 {
        if a.len() > 0 {
            assert((a[0] as u32) < (b[0] as u32));
        }
    } else {
        let ta = a.subrange(1, a.len() as int);
        let tb = b.subrange(1, b.len() as int);
        assert forall|j: int| 0 <= j < i - 1 implies ta[j] == tb[j] by {
            assert(ta[j] == a[j + 1]);
            assert(tb[j] == b[j + 1]);
        }
        if i < a.len() {
            assert(ta[i - 1] == a[i]);
            assert(tb[i - 1] == b[i]);
        }
        lemma_lex_le_from_prefix(ta, tb, i - 1);
        assert((a[0] as u32) == (b[0] as u32));
    }
}

impl TotalOrdered for String {
    type Model = Seq<char>;

    open spec fn model(&self) -> Seq<char> {
        self@
    }

    open spec fn le(a: Seq<char>, b: Seq<char>) -> bool {
        lex_le(a, b)
    }

    proof fn le_refl(a: Seq<char>) {
        lemma_lex_le_refl(a);
    }

    proof fn le_trans(a: Seq<char>, b: Seq<char>, c: Seq<char>) {
        lemma_lex_le_trans(a, b, c);
    }

    proof fn le_total(a: Seq<char>, b: Seq<char>) {
        lemma_lex_le_total(a, b);
    }

    proof fn le_antisym(a: Seq<char>, b: Seq<char>) {
        lemma_lex_le_antisym(a, b);
    }

    fn cmp_key(&self, other: &Self) -> (c: Cmp) {
        let n1 = self.as_str().unicode_len();
        let n2 = other.as_str().unicode_len();
        let mut i: usize = 0;
        while i < n1 && i < n2
            invariant
                0 <= i <= n1,
                i <= n2,
                n1 == self@.len(),
                n2 == other@.len(),
                forall|j: int| 0 <= j < i ==> self@[j] == other@[j],
            decreases n1 - i,
        {
            let c1 = self.as_str().get_char(i);
            let c2 = other.as_str().get_char(i);
            let u1 = c1 as u32;
            let u2 = c2 as u32;
            if u1 < u2 {
                proof {
                    lemma_lex_le_from_prefix(self@, other@, i as int);
                    assert(self@[i as int] != other@[i as int]);
                    assert(self@ != other@);
                }
                return Cmp::Less;
            }
            if u2 < u1 {
                proof {
                    lemma_lex_le_from_prefix(other@, self@, i as int);
                    assert(self@[i as int] != other@[i as int]);
                    assert(self@ != other@);
                }
                return Cmp::Greater;
            }
            i = i + 1;
        }
        if n1 == n2 {
            proof {
                assert(self@ =~= other@);
            }
            Cmp::Equal
        } else if n1 < n2 {
            proof {
                lemma_lex_le_from_prefix(self@, other@, n1 as int);
                assert(self@.len() != other@.len());
            }
            Cmp::Less
        } else {
            proof {
                lemma_lex_le_from_prefix(other@, self@, n2 as int);
                assert(self@.len() != other@.len());
            }
            Cmp::Greater
        }
    }

    fn clone_key(&self) -> (r: Self) {
        self.clone()
    }
}

} // verus!
