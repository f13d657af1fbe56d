//! Issue states
//!
//! This library assigns an issue (or any entity described by metadata) exactly
//! one named *state* out of a fixed catalog.  Each state carries a list of
//! [`Condition`]s — predicates over the issue — and precedence relations to
//! other states.  A catalog of states is frozen into an [`IssueStateSet`],
//! which resolves the winning state for a given issue.
//!
//! Users implement the [`Condition`] trait, linking their issue type (or a
//! representation of its metadata) to the [`IssueState`]s provided here.

pub mod assoc;
pub mod condition;
pub mod error;
pub mod flag;
pub mod iter;
pub mod order;
pub mod resolution;
pub mod state;
pub mod yaml;

pub use condition::Condition;
pub use error::Error;
pub use error::ErrorKind;
pub use resolution::IssueStateSet;
pub use state::IssueState;
