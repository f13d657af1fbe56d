//! Tests for the issue state data model.

use std::sync::Arc;

use issue_states::flag::FlagCondition;
use issue_states::flag::FlagIssue;
use issue_states::state::IssueState;
use issue_states::state::StateRelation;

type TestState = IssueState<FlagCondition>;

#[test]
fn state_smoke() {
    let mut issue: FlagIssue = Vec::new();
    issue.push(("foo".to_string(), true));
    issue.push(("bar".to_string(), true));
    issue.push(("baz".to_string(), false));

    let mut state: TestState = IssueState::new("state".to_string());
    state.conditions = vec![FlagCondition::new("foo"), FlagCondition::new("bar")];
    assert!(state.conditions_satisfied(&issue));

    state.conditions = vec![FlagCondition::new("foo"), FlagCondition::new("baz")];
    assert!(!state.conditions_satisfied(&issue));
}

#[test]
fn state_no_conditions_vacuously_satisfied() {
    let issue: FlagIssue = Vec::new();
    let state: TestState = IssueState::new("state".to_string());
    assert!(state.conditions_satisfied(&issue));
}

#[test]
fn state_relations() {
    let foo: Arc<TestState> = IssueState::new("foo".to_string()).into();
    let bar: Arc<TestState> = IssueState::new("bar".to_string()).into();

    let mut state: TestState = IssueState::new("state".to_string());
    assert_eq!(state.name(), "state");
    state.add_extended(&vec![foo.clone()]);
    state.add_overridden(&vec![bar.clone()]);

    assert_eq!(state.relation_to("foo"), Some(StateRelation::Extends));
    assert_eq!(state.relation_to("bar"), Some(StateRelation::Overrides));
    assert_eq!(state.relation_to("baz"), None);

    // A later declaration for the same target overwrites the earlier one.
    state.add_overridden(&vec![foo.clone()]);
    assert_eq!(state.relation_to("foo"), Some(StateRelation::Overrides));
}

#[test]
fn state_identity_is_its_name() {
    // States compare by name alone, whatever their conditions or
    // relations.
    let mut first: TestState = IssueState::new("state".to_string());
    first.conditions = vec![FlagCondition::new("foo")];
    let second: TestState = IssueState::new("state".to_string());
    let third: TestState = IssueState::new("other".to_string());
    assert!(first == second);
    assert!(first != third);
}
