//! Error types of the library.
//!
//! All failures of the core algorithms are reported through [`Error`], a thin
//! carrier for an [`ErrorKind`].

use vstd::prelude::*;

verus! {

/// Kinds of errors
#[derive(Clone, Copy, Debug, PartialEq, Eq, Structural)]
pub enum ErrorKind {
    /// A condition atom could not be parsed.
    ///
    /// The textual form of a condition placed a reserved character where none
    /// is allowed, or had a malformed match operator.
    ConditionParseError,
    /// A cyclic dependency was detected among a set of states.
    ///
    /// Cyclic dependencies among issue states are forbidden.
    CyclicDependency,
    /// An issue state's dependency could not be resolved.
    DependencyError,
}

/// Error type for use within the library
#[derive(Clone, Copy, Debug)]
pub struct Error {
    /// What went wrong.
    pub kind: ErrorKind,
}

impl Error {
    /// The kind of this error.
    pub open spec fn kind_spec(&self) -> ErrorKind {
        self.kind
    }

    /// Retrieve the kind of this error.
    pub fn kind(&self) -> (k: ErrorKind)
        ensures
            k == self.kind_spec(),
    {
        self.kind
    }

    /// A human-readable description of this error.
    pub fn message(&self) -> (r: &'static str)
        ensures
            self.kind == ErrorKind::ConditionParseError ==> r@ == "malformed condition atom"@,
            self.kind == ErrorKind::CyclicDependency ==> r@ == "dependency cycle detected"@,
            self.kind == ErrorKind::DependencyError ==> r@ == "dependency resolution error"@,
    {
        match self.kind {
            ErrorKind::ConditionParseError => "malformed condition atom",
            ErrorKind::CyclicDependency => "dependency cycle detected",
            ErrorKind::DependencyError => "dependency resolution error",
        }
    }
}

impl From<ErrorKind> for Error {
    fn from(kind: ErrorKind) -> (e: Self)
        ensures
            e.kind == kind,
    {
        Error { kind }
    }
}

impl vstd::std_specs::convert::FromSpecImpl<ErrorKind> for Error {
    open spec fn obeys_from_spec() -> bool {
        true
    }

    open spec fn from_spec(k: ErrorKind) -> Error {
        Error { kind: k }
    }
}

} // verus!

