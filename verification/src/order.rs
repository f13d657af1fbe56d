//! Total ordering of keys.
//!
//! The merge-join iterator and the state catalog both correlate sorted
//! sequences.  The ordering they rely on is captured by the [`OrderedKey`]
//! trait: a pure three-way comparison together with the laws of a strict
//! total order, kept independent of any particular collection type.
//!
//! States are keyed by name; the ordering used for names is the
//! lexicographic order on their characters, provided here both as a
//! specification ([`lex_lt`]) and as an executable comparison ([`str_cmp`]).

use vstd::prelude::*;
use vstd::string::StrSliceExecFns;

verus! {

/// Result of a three-way key comparison.
#[derive(Clone, Copy, Debug, PartialEq, Eq, Structural)]
pub enum KeyOrdering {
    /// The left key is strictly below the right one.
    Less,
    /// The keys are equivalent.
    Equal,
    /// The left key is strictly above the right one.
    Greater,
}

/// A key type carrying a strict total order.
///
/// `lt_spec` is the order at the specification level; the three proof
/// obligations state asymmetry, transitivity and connectedness, which make
/// it a strict weak order whose equivalence classes are decided by
/// [`key_equiv`].  `cmp_key` decides the order executably.
pub trait OrderedKey: Sized {
    /// Strict order on keys, at the specification level.
    spec fn lt_spec(&self, other: &Self) -> bool;

    /// The order is asymmetric.
    proof fn lemma_asymmetric(a: &Self, b: &Self)
        ensures
            a.lt_spec(b) ==> !b.lt_spec(a),
    ;

    /// The order is transitive.
    proof fn lemma_transitive(a: &Self, b: &Self, c: &Self)
        ensures
            a.lt_spec(b) && b.lt_spec(c) ==> a.lt_spec(c),
    ;

    /// The order is connected: whenever `a` lies strictly below `c`, any
    /// third key `b` lies strictly above `a` or strictly below `c`.
    proof fn lemma_connected(a: &Self, b: &Self, c: &Self)
        ensures
            a.lt_spec(c) ==> a.lt_spec(b) || b.lt_spec(c),
    ;

    /// Three-way comparison deciding `lt_spec`.
    fn cmp_key(&self, other: &Self) -> (r: KeyOrdering)
        ensures
            (r == KeyOrdering::Less) == self.lt_spec(other),
            (r == KeyOrdering::Greater) == other.lt_spec(self),
            (r == KeyOrdering::Equal) == (!self.lt_spec(other) && !other.lt_spec(self)),
    ;
}

/// Keys neither of which is strictly below the other.
pub open spec fn key_equiv<K: OrderedKey>(a: &K, b: &K) -> bool {
    !a.lt_spec(b) && !b.lt_spec(a)
}

/// Lexicographic order on character sequences: the shorter sequence wins on
/// a tie, otherwise the first differing character decides.
pub open spec fn lex_lt(a: Seq<char>, b: Seq<char>) -> bool
    decreases a.len(),
{
    if b.len() == 0 {
        false
    } else if a.len() == 0 {
        true
    } else if (a[0] as u32) < (b[0] as u32) {
        true
    } else if (b[0] as u32) < (a[0] as u32) {
        false
    } else {
        lex_lt(a.drop_first(), b.drop_first())
    }
}

/// `lex_lt` is asymmetric.
pub proof fn lemma_lex_lt_asymmetric(a: Seq<char>, b: Seq<char>)
    ensures
        lex_lt(a, b) ==> !lex_lt(b, a),
    decreases a.len(),
{
    if a.len() > 0 && b.len() > 0 && (a[0] as u32) == (b[0] as u32) {
        lemma_lex_lt_asymmetric(a.drop_first(), b.drop_first());
    }
}

/// `lex_lt` is transitive.
pub proof fn lemma_lex_lt_transitive(a: Seq<char>, b: Seq<char>, c: Seq<char>)
    ensures
        lex_lt(a, b) && lex_lt(b, c) ==> lex_lt(a, c),
    decreases a.len(),
{
    if a.len() > 0 && b.len() > 0 && c.len() > 0 {
        lemma_lex_lt_transitive(a.drop_first(), b.drop_first(), c.drop_first());
    }
}

/// `lex_lt` is connected.
pub proof fn lemma_lex_lt_connected(a: Seq<char>, b: Seq<char>, c: Seq<char>)
    ensures
        lex_lt(a, c) ==> lex_lt(a, b) || lex_lt(b, c),
    decreases a.len(),
{
    if a.len() > 0 && b.len() > 0 && c.len() > 0 {
        lemma_lex_lt_connected(a.drop_first(), b.drop_first(), c.drop_first());
    }
}

/// Characters with the same scalar value are the same character.
proof fn lemma_char_cast_injective(c1: char, c2: char)
    requires
        c1 as u32 == c2 as u32,
    ensures
        c1 == c2,
{
}

/// Sequences equivalent under `lex_lt` are equal.
pub proof fn lemma_lex_equiv_is_eq(a: Seq<char>, b: Seq<char>)
    ensures
        !lex_lt(a, b) && !lex_lt(b, a) ==> a == b,
    decreases a.len(),
{
    if a.len() > 0 && b.len() > 0 && (a[0] as u32) == (b[0] as u32) {
        lemma_lex_equiv_is_eq(a.drop_first(), b.drop_first());
        if !lex_lt(a, b) && !lex_lt(b, a) {
            assert(a.drop_first() == b.drop_first());
            lemma_char_cast_injective(a[0], b[0]);
            assert(a[0] == b[0]);
            assert forall|j: int| 0 <= j < a.len() implies a[j] == b[j] by {
                if j > 0 {
                    assert(a[j] == a.drop_first()[j - 1]);
                }
            }
            assert(a =~= b);
        }
    }
}

/// `lex_lt` is irreflexive.
pub proof fn lemma_lex_lt_irreflexive(a: Seq<char>)
    ensures
        !lex_lt(a, a),
    decreases a.len(),
{
    if a.len() > 0 {
        lemma_lex_lt_irreflexive(a.drop_first());
    }
}

/// A common prefix of equal characters does not affect the order.
proof fn lemma_lex_lt_skip(a: Seq<char>, b: Seq<char>, i: int)
    requires
        0 <= i <= a.len(),
        i <= b.len(),
        forall|j: int| 0 <= j < i ==> a[j] == b[j],
    ensures
        lex_lt(a, b) == lex_lt(a.skip(i), b.skip(i)),
    decreases i,
{
    if i > 0 {
        assert(a.len() > 0 && b.len() > 0 && a[0] == b[0]);
        assert(a.drop_first().skip(i - 1) =~= a.skip(i));
        assert(b.drop_first().skip(i - 1) =~= b.skip(i));
        lemma_lex_lt_skip(a.drop_first(), b.drop_first(), i - 1);
    } else {
        assert(a.skip(0) =~= a);
        assert(b.skip(0) =~= b);
    }
}

/// Three-way lexicographic comparison of two string slices.
pub fn str_cmp(a: &str, b: &str) -> (r: KeyOrdering)
    ensures
        (r == KeyOrdering::Less) == lex_lt(a@, b@),
        (r == KeyOrdering::Greater) == lex_lt(b@, a@),
        (r == KeyOrdering::Equal) == (a@ == b@),
{
    let a_len = a.unicode_len();
    let b_len = b.unicode_len();
    let mut i: usize = 0;
    loop
        invariant
            i <= a_len,
            i <= b_len,
            a_len == a@.len(),
            b_len == b@.len(),
            forall|j: int| 0 <= j < i ==> a@[j] == b@[j],
        decreases a_len - i,
    {
        proof {
            lemma_lex_lt_skip(a@, b@, i as int);
            lemma_lex_lt_skip(b@, a@, i as int);
        }
        if i == a_len {
            if i == b_len {
                proof {
                    assert(a@ =~= b@);
                    lemma_lex_lt_irreflexive(a@);
                }
                return KeyOrdering::Equal;
            } else {
                proof {
                    lemma_lex_lt_asymmetric(a@, b@);
                }
                return KeyOrdering::Less;
            }
        }
        if i == b_len {
            proof {
                lemma_lex_lt_asymmetric(b@, a@);
            }
            return KeyOrdering::Greater;
        }
        let ca = a.get_char(i);
        let cb = b.get_char(i);
        if (ca as u32) < (cb as u32) {
            proof {
                lemma_lex_lt_asymmetric(a@, b@);
                assert(lex_lt(a@.skip(i as int), b@.skip(i as int)));
            }
            return KeyOrdering::Less;
        }
        if (cb as u32) < (ca as u32) {
            proof {
                lemma_lex_lt_asymmetric(b@, a@);
                assert(lex_lt(b@.skip(i as int), a@.skip(i as int)));
            }
            return KeyOrdering::Greater;
        }
        proof {
            assert(a@[i as int] == b@[i as int]);
        }
        i = i + 1;
    }
}

impl OrderedKey for String {
    open spec fn lt_spec(&self, other: &Self) -> bool {
        lex_lt(self@, other@)
    }

    proof fn lemma_asymmetric(a: &Self, b: &Self) {
        lemma_lex_lt_asymmetric(a@, b@);
    }

    proof fn lemma_transitive(a: &Self, b: &Self, c: &Self) {
        lemma_lex_lt_transitive(a@, b@, c@);
    }

    proof fn lemma_connected(a: &Self, b: &Self, c: &Self) {
        lemma_lex_lt_connected(a@, b@, c@);
    }

    fn cmp_key(&self, other: &Self) -> (r: KeyOrdering) {
        proof {
            lemma_lex_equiv_is_eq(self@, other@);
            lemma_lex_lt_irreflexive(self@);
        }
        str_cmp(self.as_str(), other.as_str())
    }
}

impl OrderedKey for i32 {
    open spec fn lt_spec(&self, other: &Self) -> bool {
        *self < *other
    }

    proof fn lemma_asymmetric(a: &Self, b: &Self) {
    }

    proof fn lemma_transitive(a: &Self, b: &Self, c: &Self) {
    }

    proof fn lemma_connected(a: &Self, b: &Self, c: &Self) {
    }

    fn cmp_key(&self, other: &Self) -> (r: KeyOrdering) {
        if *self < *other {
            KeyOrdering::Less
        } else if *other < *self {
            KeyOrdering::Greater
        } else {
            KeyOrdering::Equal
        }
    }
}

} // verus!
