//! Tests for the library's error type.

use issue_states::Error;
use issue_states::ErrorKind;

#[test]
fn error_kinds_and_messages() {
    let parse = Error::from(ErrorKind::ConditionParseError);
    assert_eq!(parse.kind, ErrorKind::ConditionParseError);
    assert_eq!(parse.message(), "malformed condition atom");

    let cycle = Error::from(ErrorKind::CyclicDependency);
    assert_eq!(cycle.kind, ErrorKind::CyclicDependency);
    assert_eq!(cycle.message(), "dependency cycle detected");

    let dependency = Error::from(ErrorKind::DependencyError);
    assert_eq!(dependency.kind, ErrorKind::DependencyError);
    assert_eq!(dependency.message(), "dependency resolution error");
}
