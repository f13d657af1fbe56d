//! Tests for parsing issue states from YAML documents.

use yaml_rust::parser::Parser;

use issue_states::flag::FlagCondition;
use issue_states::flag::FlagConditionFactory;
use issue_states::resolution::IssueStateSet;
use issue_states::state::StateRelation;
use issue_states::yaml::parse_issue_states;
use issue_states::yaml::YamlError;

// Convenience function for encapsulating boilerplate for each test
fn parse(s: &str) -> IssueStateSet<FlagCondition> {
    let mut parser = Parser::new(s.chars());
    parse_issue_states(&mut parser, FlagConditionFactory::default())
        .expect("Failed to parse document")
}

#[test]
fn empty_stream() {
    let result = parse("");
    assert_eq!(result.len(), 0);
}

#[test]
fn single_state1() {
    let result = parse("  - foobar");

    assert_eq!(result.len(), 1, "Parse result does not contain expected state.");
    let state = result.get(0);
    assert_eq!(state.name(), "foobar");
}

#[test]
fn single_state2() {
    let result = parse("---\n  - foobar\n...");

    assert_eq!(result.len(), 1, "Parse result does not contain expected state.");
    let state = result.get(0);
    assert_eq!(state.name(), "foobar");
}

#[test]
fn single_with_conditions() {
    let result = parse(
        "---
  - name: foobar
    conditions: [foo, bar]
...",
    );

    assert_eq!(result.len(), 1, "Parse result does not contain expected state.");
    let state = result.get(0);
    assert_eq!(state.name(), "foobar");
    assert_eq!(state.conditions, vec![FlagCondition::new("foo"), FlagCondition::new("bar")]);
}

#[test]
fn multiple_with_conditions() {
    let result = parse(
        "---
  - new
  - name: acknowledged
    conditions: acked
    overrides: new
  - name: assigned
    conditions: assigned
    extends: acknowledged
  - name: closed
    conditions: closed
    overrides: [new, acknowledged, assigned]
...",
    );

    assert_eq!(result.len(), 4, "Parse result does not contain expected state.");

    let state1 = result.get(0);
    assert_eq!(state1.name(), "new");

    let state2 = result.get(1);
    assert_eq!(state2.name(), "acknowledged");
    assert_eq!(state2.conditions, vec![FlagCondition::new("acked")]);
    assert_eq!(state2.relation_to("new"), Some(StateRelation::Overrides));

    let state3 = result.get(2);
    assert_eq!(state3.name(), "assigned");
    assert_eq!(state3.conditions, vec![FlagCondition::new("assigned")]);
    assert_eq!(state3.relation_to("acknowledged"), Some(StateRelation::Extends));

    let state4 = result.get(3);
    assert_eq!(state4.name(), "closed");
    assert_eq!(state4.conditions, vec![FlagCondition::new("closed")]);
    assert_eq!(state4.relation_to("new"), Some(StateRelation::Overrides));
    assert_eq!(state4.relation_to("acknowledged"), Some(StateRelation::Overrides));
    assert_eq!(state4.relation_to("assigned"), Some(StateRelation::Overrides));
}

#[test]
fn unknown_state_reference() {
    // Relation targets must refer to states appearing earlier.
    let mut parser = Parser::new(
        "---
  - name: foobar
    extends: missing
..."
            .chars(),
    );
    let result = parse_issue_states::<_, FlagCondition, _>(&mut parser, FlagConditionFactory::default());
    assert!(matches!(result, Err(YamlError::UnknownState)));
}

#[test]
fn malformed_document() {
    // A toplevel mapping is not a sequence of issue states.
    let mut parser = Parser::new("---\nfoo: bar\n...".chars());
    let result = parse_issue_states::<_, FlagCondition, _>(&mut parser, FlagConditionFactory::default());
    assert!(matches!(result, Err(YamlError::UnexpectedEvent)));
}

#[test]
fn parsed_set_resolves() {
    // A parsed catalog feeds straight into resolution.
    let states = parse(
        "---
  - new
  - name: acknowledged
    conditions: acked
    overrides: new
...",
    );

    let issue = vec![("acked".to_string(), true)];
    let state = states
        .issue_state(&issue)
        .expect("Failed to determine state.")
        .expect("Wrongly determined no state.");
    assert_eq!(state.name(), "acknowledged");
}

#[test]
fn scanner_failure() {
    // A reference to an unknown anchor makes yaml-rust itself fail.
    let mut parser = Parser::new("---\n- *unknown\n...".chars());
    let result = parse_issue_states::<_, FlagCondition, _>(&mut parser, FlagConditionFactory::default());
    assert!(matches!(result, Err(YamlError::Scan(_))));
}
