//! Tests for the condition atom grammar.

use issue_states::condition::parse_condition;
use issue_states::condition::MatchOp;
use issue_states::ErrorKind;

/// Convenience wrapper unwrapping a successful parse.
fn parse(string: &str) -> (&str, bool, Option<(MatchOp, &str)>) {
    parse_condition(string).expect("Failed to parse condition atom!")
}

#[test]
fn condition_smoke() {
    assert_eq!(parse("foo"), ("foo", false, None));
    assert_eq!(parse("!foo"), ("foo", true, None));
    assert_eq!(parse("foo=bar"), ("foo", false, Some((MatchOp::Equivalence, "bar"))));
    assert_eq!(parse("foo<bar"), ("foo", false, Some((MatchOp::LowerThan, "bar"))));
    assert_eq!(parse("foo>bar"), ("foo", false, Some((MatchOp::GreaterThan, "bar"))));
    assert_eq!(parse("foo<=bar"), ("foo", false, Some((MatchOp::LowerThanOrEqual, "bar"))));
    assert_eq!(parse("foo>=bar"), ("foo", false, Some((MatchOp::GreaterThanOrEqual, "bar"))));
    assert_eq!(parse("foo!~bar"), ("foo", true, Some((MatchOp::Contains, "bar"))));
    assert_eq!(parse("foo!=bar"), ("foo", true, Some((MatchOp::Equivalence, "bar"))));
    assert_eq!(parse("foo!<bar"), ("foo", true, Some((MatchOp::LowerThan, "bar"))));
    assert_eq!(parse("foo!>bar"), ("foo", true, Some((MatchOp::GreaterThan, "bar"))));
    assert_eq!(parse("foo!<=bar"), ("foo", true, Some((MatchOp::LowerThanOrEqual, "bar"))));
    assert_eq!(parse("foo!>=bar"), ("foo", true, Some((MatchOp::GreaterThanOrEqual, "bar"))));
    assert_eq!(parse("foo!~bar"), ("foo", true, Some((MatchOp::Contains, "bar"))));
}

#[test]
fn condition_no_reserved_characters() {
    // Atoms without reserved characters parse to a plain existence check.
    assert_eq!(parse("a"), ("a", false, None));
    assert_eq!(parse("some_meta-data.field"), ("some_meta-data.field", false, None));
    assert_eq!(parse("UPPER lower 123"), ("UPPER lower 123", false, None));
    assert_eq!(parse(""), ("", false, None));
}

#[test]
fn condition_empty_values() {
    assert_eq!(parse("!"), ("", true, None));
    assert_eq!(parse("foo="), ("foo", false, Some((MatchOp::Equivalence, ""))));
    assert_eq!(parse("foo<"), ("foo", false, Some((MatchOp::LowerThan, ""))));
}

#[test]
fn condition_parse_errors() {
    // A reserved character other than `!` in front, a reserved character
    // after a negated existence check, or a missing operator are all
    // syntax errors.
    for broken in ["=bar", "<foo", "!fo=o", "!!foo", "foo!", "foo!bar=baz"] {
        let err = parse_condition(broken).expect_err("Wrongly parsed a broken atom.");
        assert_eq!(err.kind, ErrorKind::ConditionParseError);
    }
}
