//! Issue states and conditions
//!
//! This module provides the [`Condition`] trait which will usually be
//! implemented by the library's user, together with the grammar for textual
//! condition atoms.
//!
//! A condition atom names a piece of metadata, optionally negated and
//! optionally compared via a [`MatchOp`] against a literal value.  The
//! reserved characters `!`, `=`, `<`, `>` and `~` structure the atom; the
//! grammar is stated by [`parse_atom_spec`] and decided by
//! [`parse_condition`].

use vstd::prelude::*;
use vstd::string::StrSliceExecFns;

use crate::error::Error;
use crate::error::ErrorKind;

verus! {

/// Trait for issue metadata conditions
///
/// A `Condition` represents a predicate for an issue state: a function
/// mapping an issue to a boolean value indicating whether the condition is
/// fulfilled or not.  It is generally assumed that a condition consists of
/// "condition atoms", which each specify a "singular" condition on a
/// specific piece of metadata.
///
/// Whatever is used as type for conditions on metadata has to implement
/// this trait.  It enables issue state sets to evaluate the condition.
/// Additionally, the [`ConditionFactory`] trait should be implemented in
/// order to enable parsing conditions from configuration files.
pub trait Condition: Sized {
    /// Type of the issue being evaluated
    ///
    /// Alternatively, some representation of the metadata may be used in
    /// place of the issue type.
    type Issue;

    /// What the condition means: the predicate it decides on issues.
    spec fn satisfied_spec(&self, issue: &Self::Issue) -> bool;

    /// Check whether the condition is satisfied by the issue provided
    fn satisfied_by(&self, issue: &Self::Issue) -> (r: bool)
        ensures
            r == self.satisfied_spec(issue),
    ;
}

/// Match operators
///
/// These operators define how the piece of metadata queried from the issue
/// is compared to the literal provided with the condition atom.  The former
/// is considered the "left-hand value" while the latter is considered the
/// "right-hand value" in this context.
#[derive(Clone, Copy, Debug, PartialEq, Eq, Structural)]
pub enum MatchOp {
    /// Match if the values are equivalent.
    Equivalence,
    /// Match if the left-hand value is lower than the right-hand value.
    LowerThan,
    /// Match if the left-hand value is greater than the right-hand value.
    GreaterThan,
    /// Match if the left-hand value is lower than the right-hand value or
    /// equal.
    LowerThanOrEqual,
    /// Match if the left-hand value is greater than the right-hand value or
    /// equal.
    GreaterThanOrEqual,
    /// Match if the left-hand value contains or is equal to the right-hand
    /// value.
    Contains,
}

/// Whether a character is reserved by the condition atom grammar.
pub open spec fn is_reserved(c: char) -> bool {
    c == '!' || c == '=' || c == '<' || c == '>' || c == '~'
}

/// Whether any character of the sequence is reserved.
pub open spec fn has_reserved(s: Seq<char>) -> bool {
    exists|i: int| 0 <= i < s.len() && is_reserved(s[i])
}

/// Index of the first reserved character; meaningful only when one exists.
pub open spec fn first_reserved(s: Seq<char>) -> int
    decreases s.len(),
{
    if s.len() == 0 {
        0
    } else if is_reserved(s[0]) {
        0
    } else {
        1 + first_reserved(s.drop_first())
    }
}

/// A position carrying the first reserved character, with none before it,
/// is `first_reserved`.
proof fn lemma_first_reserved(s: Seq<char>, p: int)
    requires
        0 <= p < s.len(),
        is_reserved(s[p]),
        forall|j: int| 0 <= j < p ==> !is_reserved(s[j]),
    ensures
        has_reserved(s),
        first_reserved(s) == p,
    decreases p,
{
    if p > 0 {
        assert forall|j: int| 0 <= j < p - 1 implies !is_reserved(s.drop_first()[j]) by {
            assert(s.drop_first()[j] == s[j + 1]);
        }
        assert(s.drop_first()[p - 1] == s[p]);
        lemma_first_reserved(s.drop_first(), p - 1);
    }
}

/// The operator at the front of an operator-value compound: the match
/// operator and the number of characters it occupies.
pub open spec fn op_spec(s: Seq<char>) -> Option<(MatchOp, int)> {
    if s.len() == 0 {
        None
    } else if s[0] == '=' {
        Some((MatchOp::Equivalence, 1))
    } else if s[0] == '<' {
        if s.len() >= 2 && s[1] == '=' {
            Some((MatchOp::LowerThanOrEqual, 2))
        } else {
            Some((MatchOp::LowerThan, 1))
        }
    } else if s[0] == '>' {
        if s.len() >= 2 && s[1] == '=' {
            Some((MatchOp::GreaterThanOrEqual, 2))
        } else {
            Some((MatchOp::GreaterThan, 1))
        }
    } else if s[0] == '~' {
        Some((MatchOp::Contains, 1))
    } else {
        None
    }
}

/// What parsing a condition atom yields: the metadata name, the negation
/// flag and, optionally, the match operator with the literal value; `None`
/// for a malformed atom.
pub open spec fn parse_atom_spec(s: Seq<char>) -> Option<
    (Seq<char>, bool, Option<(MatchOp, Seq<char>)>),
> {
    if !has_reserved(s) {
        Some((s, false, None))
    } else {
        let p = first_reserved(s);
        if p == 0 {
            if s[0] == '!' && !has_reserved(s.skip(1)) {
                Some((s.skip(1), true, None))
            } else {
                None
            }
        } else {
            let rest = s.skip(p);
            let neg = rest[0] == '!';
            let opv = if neg {
                rest.skip(1)
            } else {
                rest
            };
            match op_spec(opv) {
                None => None,
                Some((op, adv)) => Some((s.take(p), neg, Some((op, opv.skip(adv))))),
            }
        }
    }
}

/// The view of a parsed atom.
pub open spec fn atom_view<'a>(atom: (&'a str, bool, Option<(MatchOp, &'a str)>)) -> (
    Seq<char>,
    bool,
    Option<(MatchOp, Seq<char>)>,
) {
    (
        atom.0@,
        atom.1,
        match atom.2 {
            Some((op, v)) => Some((op, v@)),
            None => None,
        },
    )
}

/// The view of an optional operator-value pair.
pub open spec fn val_op_view<'a>(val_op: Option<(MatchOp, &'a str)>) -> Option<(MatchOp, Seq<char>)> {
    match val_op {
        Some((op, v)) => Some((op, v@)),
        None => None,
    }
}

/// Factory trait for conditions
///
/// This trait allows issue states parsers to create conditions from a
/// string representation.  Implementers need not implement the actual
/// parsing.  Instead, the function `make_condition()` will be supplied with
/// the components of a condition.
pub trait ConditionFactory<C> where C: Condition {
    /// The implementer's error type; core errors convert into it.
    type Error: From<Error>;

    /// What holds of the outcome of making a condition from the given
    /// components: the implementer's postcondition for `make_condition`.
    spec fn make_post(
        &self,
        name: Seq<char>,
        neg: bool,
        val_op: Option<(MatchOp, Seq<char>)>,
        r: Result<C, Self::Error>,
    ) -> bool;

    /// Create a condition from bits and pieces
    ///
    /// The condition will be assembled from the "metadata identifier" (e.g.
    /// the name of the piece of metadata), a flag indicating whether the
    /// condition is negated or not and, optionally, the matching operator
    /// and a string representation of the right-hand side value.
    ///
    /// If the operator and value are not present, the resulting condition
    /// is expected to yield true if the piece of metadata denoted by the
    /// metadata identifier is present, e.g. non-null.
    fn make_condition(&self, name: &str, neg: bool, val_op: Option<(MatchOp, &str)>) -> (r: Result<
        C,
        Self::Error,
    >)
        ensures
            self.make_post(name@, neg, val_op_view(val_op), r),
    ;

    /// Parse a condition directly from a string
    ///
    /// This function parses a [`Condition`] directly from a string using
    /// the `make_condition()` function.
    fn parse_condition(&self, string: &str) -> (r: Result<C, Self::Error>)
        ensures
            match parse_atom_spec(string@) {
                Some(atom) => self.make_post(atom.0, atom.1, atom.2, r),
                None => r is Err,
            },
    {
        match parse_condition(string) {
            Ok((name, neg, val_op)) => self.make_condition(name, neg, val_op),
            Err(e) => Err(Self::Error::from(e)),
        }
    }
}

/// Parse the bits of a condition atom
///
/// This function parses a condition atom.  It returns the "metadata
/// identifier" (e.g. the name of the piece of metadata), a flag indicating
/// whether the condition is negated or not and, optionally, the matching
/// operator and a string representation of the right-hand side value.
///
/// The matching operator and value may be `None`.  In this case, the
/// condition parsed is expected to check for the existence of a piece of
/// metadata.
pub fn parse_condition<'a>(string: &'a str) -> (r: Result<
    (&'a str, bool, Option<(MatchOp, &'a str)>),
    Error,
>)
    ensures
        match r {
            Ok(atom) => parse_atom_spec(string@) == Some(atom_view(atom)),
            Err(e) => parse_atom_spec(string@) is None && e.kind == ErrorKind::ConditionParseError,
        },
        !has_reserved(string@) ==> r == Ok::<_, Error>((string, false, None::<(MatchOp, &'a str)>)),
{
    let len = string.unicode_len();
    let mut pos: usize = 0;
    loop
        invariant
            pos <= len,
            len == string@.len(),
            forall|j: int| 0 <= j < pos ==> !is_reserved(string@[j]),
        ensures
            pos <= len,
            len == string@.len(),
            forall|j: int| 0 <= j < pos ==> !is_reserved(string@[j]),
            pos < len ==> is_reserved(string@[pos as int]),
            pos == len ==> !has_reserved(string@),
        decreases len - pos,
    {
        if pos == len {
            break;
        }
        if reserved_char(string.get_char(pos)) {
            break;
        }
        pos = pos + 1;
    }
    if pos == len {
        // No reserved character: the condition is the existence of the
        // piece of metadata.
        return Ok((string, false, None));
    }
    proof {
        lemma_first_reserved(string@, pos as int);
    }
    if pos == 0 {
        // The condition is either a negated existence (e.g. starts with
        // `!`) or invalid.
        if string.get_char(0) == '!' {
            let mut j: usize = 1;
            loop
                invariant
                    1 <= j <= len,
                    len == string@.len(),
                    forall|k: int| 1 <= k < j ==> !is_reserved(string@[k]),
                ensures
                    1 <= j <= len,
                    j < len ==> is_reserved(string@[j as int]),
                    forall|k: int| 1 <= k < j ==> !is_reserved(string@[k]),
                decreases len - j,
            {
                if j == len {
                    break;
                }
                if reserved_char(string.get_char(j)) {
                    break;
                }
                j = j + 1;
            }
            if j == len {
                let name = string.substring_char(1, len);
                proof {
                    assert forall|k: int| 0 <= k < string@.skip(1).len() implies !is_reserved(
                        string@.skip(1)[k],
                    ) by {
                        assert(string@.skip(1)[k] == string@[k + 1]);
                    }
                    assert(name@ =~= string@.skip(1));
                }
                return Ok((name, true, None));
            }
            proof {
                assert(is_reserved(string@.skip(1)[j - 1]));
            }
            return Err(Error { kind: ErrorKind::ConditionParseError });
        }
        return Err(Error { kind: ErrorKind::ConditionParseError });
    }
    let name = string.substring_char(0, pos);
    let negated = string.get_char(pos) == '!';
    let vstart = if negated {
        pos + 1
    } else {
        pos
    };
    let op_val = string.substring_char(vstart, len);
    proof {
        let s = string@;
        let rest = s.skip(pos as int);
        assert(rest[0] == s[pos as int]);
        assert(negated == (rest[0] == '!'));
        if negated {
            assert(rest.skip(1) =~= s.skip(pos + 1));
        }
        assert(op_val@ =~= s.subrange(vstart as int, len as int));
        assert(s.subrange(vstart as int, len as int) =~= s.skip(vstart as int));
        assert(name@ =~= s.take(pos as int));
    }
    match parse_op_val(op_val) {
        Ok((op, value)) => {
            proof {
                let s = string@;
                let opv = s.skip(vstart as int);
                assert(op_val@ == opv);
                assert(value@ =~= opv.skip(op_spec(opv)->Some_0.1));
            }
            Ok((name, negated, Some((op, value))))
        },
        Err(e) => Err(e),
    }
}

/// Check whether a character is a reserved character
fn reserved_char(c: char) -> (r: bool)
    ensures
        r == is_reserved(c),
{
    c == '!' || c == '=' || c == '<' || c == '>' || c == '~'
}

/// Parse and extract the match operator and value from the compound
fn parse_op_val<'a>(string: &'a str) -> (r: Result<(MatchOp, &'a str), Error>)
    ensures
        match r {
            Ok((op, value)) => {
                &&& op_spec(string@) matches Some(o)
                &&& op == o.0
                &&& value@ == string@.skip(o.1)
            },
            Err(e) => op_spec(string@) is None && e.kind == ErrorKind::ConditionParseError,
        },
{
    let len = string.unicode_len();
    if len == 0 {
        return Err(Error { kind: ErrorKind::ConditionParseError });
    }
    let c0 = string.get_char(0);
    let (op, consumed): (MatchOp, usize) = if c0 == '=' {
        (MatchOp::Equivalence, 1)
    } else if c0 == '<' {
        if len >= 2 && string.get_char(1) == '=' {
            (MatchOp::LowerThanOrEqual, 2)
        } else {
            (MatchOp::LowerThan, 1)
        }
    } else if c0 == '>' {
        if len >= 2 && string.get_char(1) == '=' {
            (MatchOp::GreaterThanOrEqual, 2)
        } else {
            (MatchOp::GreaterThan, 1)
        }
    } else if c0 == '~' {
        (MatchOp::Contains, 1)
    } else {
        return Err(Error { kind: ErrorKind::ConditionParseError });
    };
    let value = string.substring_char(consumed, len);
    proof {
        assert(value@ =~= string@.skip(consumed as int));
    }
    Ok((op, value))
}

} // verus!
