//! Tests for the topological builder and the resolution engine.

use std::sync::Arc;

use issue_states::flag::FlagCondition;
use issue_states::flag::FlagIssue;
use issue_states::resolution::IssueStateSet;
use issue_states::state::IssueState;
use issue_states::ErrorKind;

type TestState = IssueState<FlagCondition>;

/// The four-state catalog of the end-to-end scenario.
fn scenario_states() -> Vec<Arc<TestState>> {
    let state1: Arc<TestState> = IssueState::new("new".to_string()).into();

    let state2: Arc<TestState> = {
        let mut tmp = IssueState::new("acknowledged".to_string());
        tmp.conditions = vec![FlagCondition::new("acked")];
        tmp.add_overridden(&vec![state1.clone()]);
        tmp
    }
    .into();

    let state3: Arc<TestState> = {
        let mut tmp = IssueState::new("assigned".to_string());
        tmp.conditions = vec![FlagCondition::new("assigned")];
        tmp.add_extended(&vec![state2.clone()]);
        tmp
    }
    .into();

    let state4: Arc<TestState> = {
        let mut tmp = IssueState::new("closed".to_string());
        tmp.conditions = vec![FlagCondition::new("closed")];
        tmp.add_overridden(&vec![state3.clone()]);
        tmp
    }
    .into();

    vec![state1, state2, state3, state4]
}

fn issue_of(flags: &[&str]) -> FlagIssue {
    flags.iter().map(|name| (name.to_string(), true)).collect()
}

#[test]
fn resolution_smoke() {
    let states = IssueStateSet::from_set(scenario_states())
        .expect("Failed to create issue state set.");

    {
        let issue: FlagIssue = Vec::new();
        let state = states
            .issue_state(&issue)
            .expect("Failed to determine state.")
            .expect("Wrongly determined no state.");
        assert_eq!(state.name(), "new");
    }

    {
        let state = states
            .issue_state(&issue_of(&["acked"]))
            .expect("Failed to determine state.")
            .expect("Wrongly determined no state.");
        assert_eq!(state.name(), "acknowledged");
    }

    {
        let state = states
            .issue_state(&issue_of(&["assigned"]))
            .expect("Failed to determine state.")
            .expect("Wrongly determined no state.");
        assert_eq!(state.name(), "new");
    }

    {
        let state = states
            .issue_state(&issue_of(&["acked", "assigned"]))
            .expect("Failed to determine state.")
            .expect("Wrongly determined no state.");
        assert_eq!(state.name(), "assigned");
    }

    {
        let state = states
            .issue_state(&issue_of(&["acked", "closed"]))
            .expect("Failed to determine state.")
            .expect("Wrongly determined no state.");
        assert_eq!(state.name(), "closed");
    }
}

#[test]
fn resolution_empty_set() {
    let states = IssueStateSet::<FlagCondition>::from_set(Vec::new())
        .expect("Failed to create issue state set.");
    let issue: FlagIssue = Vec::new();
    let resolved = states.issue_state(&issue).expect("Failed to determine state.");
    assert!(resolved.is_none());
}

#[test]
fn from_set_orders_by_dependency() {
    let states = IssueStateSet::from_set(scenario_states())
        .expect("Failed to create issue state set.");

    // Every relation target must stand before its referrer.
    let mut seen: Vec<String> = Vec::new();
    for i in 0..states.len() {
        let state = states.get(i);
        for name in ["new", "acknowledged", "assigned", "closed"] {
            if state.relation_to(name).is_some() {
                assert!(seen.iter().any(|n| n == name));
            }
        }
        seen.push(state.name().clone());
    }
    assert_eq!(seen.len(), 4);
}

#[test]
fn from_set_stable_on_own_output() {
    let first = IssueStateSet::from_set(scenario_states())
        .expect("Failed to create issue state set.");
    let mut names: Vec<String> = Vec::new();
    let mut output: Vec<Arc<TestState>> = Vec::new();
    for i in 0..first.len() {
        names.push(first.get(i).name().clone());
        output.push(first.get(i).clone());
    }

    // Re-running the builder on its own output keeps the ordering.
    let second = IssueStateSet::from_set(output).expect("Failed to create issue state set.");
    assert_eq!(second.len(), names.len());
    for i in 0..second.len() {
        assert_eq!(second.get(i).name(), &names[i]);
    }
}

#[test]
fn from_set_detects_cycle() {
    // Two states overriding each other, both otherwise independent.
    let a_handle: Arc<TestState> = IssueState::new("a".to_string()).into();
    let b_handle: Arc<TestState> = IssueState::new("b".to_string()).into();

    let mut a = IssueState::new("a".to_string());
    a.add_overridden(&vec![b_handle]);
    let mut b = IssueState::new("b".to_string());
    b.add_overridden(&vec![a_handle]);

    let err = IssueStateSet::from_set(vec![Arc::new(a), Arc::new(b)])
        .expect_err("Wrongly ordered a cyclic state set.");
    assert_eq!(err.kind, ErrorKind::CyclicDependency);
}

#[test]
fn from_set_detects_mixed_cycle() {
    // A cycle through one Extends and one Overrides relation is detected
    // just like a same-kind cycle.
    let a_handle: Arc<TestState> = IssueState::new("a".to_string()).into();
    let b_handle: Arc<TestState> = IssueState::new("b".to_string()).into();

    let mut a = IssueState::new("a".to_string());
    a.add_extended(&vec![b_handle]);
    let mut b = IssueState::new("b".to_string());
    b.add_overridden(&vec![a_handle]);

    let err = IssueStateSet::from_set(vec![Arc::new(a), Arc::new(b)])
        .expect_err("Wrongly ordered a cyclic state set.");
    assert_eq!(err.kind, ErrorKind::CyclicDependency);
}

#[test]
fn resolution_missing_dependency() {
    // A state extending an absent state: the scan fails, whatever the
    // issue looks like.
    let ghost_handle: Arc<TestState> = IssueState::new("acknowledged".to_string()).into();
    let mut assigned = IssueState::new("assigned".to_string());
    assigned.conditions = vec![FlagCondition::new("assigned")];
    assigned.add_extended(&vec![ghost_handle]);

    let states: IssueStateSet<FlagCondition> = vec![Arc::new(assigned)].into();

    let err = states
        .issue_state(&issue_of(&["assigned"]))
        .expect_err("Wrongly resolved against a malformed catalog.");
    assert_eq!(err.kind, ErrorKind::DependencyError);

    // The missing target is detected even when the extending state's own
    // conditions do not hold.
    let issue: FlagIssue = Vec::new();
    let err = states
        .issue_state(&issue)
        .expect_err("Wrongly resolved against a malformed catalog.");
    assert_eq!(err.kind, ErrorKind::DependencyError);
}

#[test]
fn misordered_catalog_fails_resolution() {
    // A hand-built catalog violating the dependency order: the extending
    // state stands before the state it extends.
    let acknowledged_handle: Arc<TestState> = {
        let mut tmp = IssueState::new("acknowledged".to_string());
        tmp.conditions = vec![FlagCondition::new("acked")];
        tmp
    }
    .into();

    let mut assigned = IssueState::new("assigned".to_string());
    assigned.conditions = vec![FlagCondition::new("assigned")];
    assigned.add_extended(&vec![acknowledged_handle.clone()]);

    let states: IssueStateSet<FlagCondition> =
        vec![Arc::new(assigned), acknowledged_handle].into();

    let err = states
        .issue_state(&issue_of(&["acked", "assigned"]))
        .expect_err("Wrongly resolved against a misordered catalog.");
    assert_eq!(err.kind, ErrorKind::DependencyError);
}
