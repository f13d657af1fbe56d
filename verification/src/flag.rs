//! A ready-made condition type over named boolean flags.
//!
//! An issue is represented as a list of named flags; a [`FlagCondition`]
//! is satisfied when its flag is set.  This suffices for catalogs whose
//! conditions are plain existence checks and gives the library a concrete
//! [`Condition`] and [`ConditionFactory`] implementation.

use vstd::prelude::*;

use crate::condition::Condition;
use crate::condition::ConditionFactory;
use crate::condition::MatchOp;
use crate::error::Error;

verus! {

/// An issue described by named boolean flags; a flag not listed counts as
/// unset, and the first entry for a name decides.
pub type FlagIssue = Vec<(String, bool)>;

/// The value of the named flag: that of its first entry, unset if none.
pub open spec fn flag_value(entries: Seq<(String, bool)>, name: Seq<char>) -> bool
    decreases entries.len(),
{
    if entries.len() == 0 {
        false
    } else if entries[0].0@ == name {
        entries[0].1
    } else {
        flag_value(entries.drop_first(), name)
    }
}

/// A prefix of entries for other names does not affect a flag's value.
proof fn lemma_flag_value_skip(entries: Seq<(String, bool)>, name: Seq<char>, i: int)
    requires
        0 <= i <= entries.len(),
        forall|j: int| 0 <= j < i ==> entries[j].0@ != name,
    ensures
        flag_value(entries, name) == flag_value(entries.skip(i), name),
    decreases i,
{
    if i > 0 {
        assert(entries.drop_first().skip(i - 1) =~= entries.skip(i));
        lemma_flag_value_skip(entries.drop_first(), name, i - 1);
    } else {
        assert(entries.skip(0) =~= entries);
    }
}

/// A condition on a single named flag of an issue.
#[derive(Clone, Debug, PartialEq, Eq)]
pub struct FlagCondition {
    /// The name of the flag this condition checks.
    pub name: String,
}

impl FlagCondition {
    /// A condition checking the flag of the given name.
    pub fn new(name: &str) -> (r: Self)
        ensures
            r.name@ == name@,
    {
        Self { name: name.to_owned() }
    }
}

impl Condition for FlagCondition {
    type Issue = FlagIssue;

    open spec fn satisfied_spec(&self, issue: &FlagIssue) -> bool {
        flag_value(issue@, self.name@)
    }

    fn satisfied_by(&self, issue: &FlagIssue) -> (r: bool) {
        let len = issue.len();
        let mut i: usize = 0;
        while i < len
            invariant
                i <= len,
                len == issue@.len(),
                forall|j: int| 0 <= j < i ==> issue@[j].0@ != self.name@,
            decreases len - i,
        {
            let entry = &issue[i];
            if crate::order::str_cmp(entry.0.as_str(), self.name.as_str())
                == crate::order::KeyOrdering::Equal {
                proof {
                    lemma_flag_value_skip(issue@, self.name@, i as int);
                    assert(issue@.skip(i as int)[0] == issue@[i as int]);
                }
                return entry.1;
            }
            i = i + 1;
        }
        proof {
            lemma_flag_value_skip(issue@, self.name@, len as int);
            assert(issue@.skip(len as int).len() == 0);
        }
        false
    }
}

/// A factory producing [`FlagCondition`]s.
///
/// The negation flag and the operator-value pair of the condition atom are
/// accepted and ignored: the produced condition checks the named flag
/// alone.
pub struct FlagConditionFactory {}

impl Default for FlagConditionFactory {
    fn default() -> (r: Self)
        ensures
            r == (FlagConditionFactory {  }),
    {
        Self {  }
    }
}

impl ConditionFactory<FlagCondition> for FlagConditionFactory {
    type Error = Error;

    open spec fn make_post(
        &self,
        name: Seq<char>,
        neg: bool,
        val_op: Option<(MatchOp, Seq<char>)>,
        r: Result<FlagCondition, Error>,
    ) -> bool {
        r matches Ok(c) && c.name@ == name
    }

    fn make_condition(&self, name: &str, neg: bool, val_op: Option<(MatchOp, &str)>) -> (r: Result<
        FlagCondition,
        Error,
    >) {
        Ok(FlagCondition::new(name))
    }
}

} // verus!
