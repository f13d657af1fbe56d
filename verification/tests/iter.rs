//! Tests for the merge-join iterator.

use issue_states::iter::LeftJoin;

#[test]
fn iter_smoke() {
    let left = vec![(1, "a"), (3, "b"), (4, "c"), (7, "d"), (8, "e")];
    let right = vec![(2, "x"), (3, "u"), (4, "v"), (5, "x"), (6, "x"), (7, "w")];

    let mut res = LeftJoin::new(&left, &right);
    assert_eq!(res.next(), Some(("a", None)));
    assert_eq!(res.next(), Some(("b", Some("u"))));
    assert_eq!(res.next(), Some(("c", Some("v"))));
    assert_eq!(res.next(), Some(("d", Some("w"))));
    assert_eq!(res.next(), Some(("e", None)));
    assert_eq!(res.next(), None)
}

#[test]
fn iter_empty_right() {
    let left = vec![(1, "a"), (2, "b")];
    let right: Vec<(i32, &str)> = Vec::new();

    let mut res = LeftJoin::new(&left, &right);
    assert_eq!(res.next(), Some(("a", None)));
    assert_eq!(res.next(), Some(("b", None)));
    assert_eq!(res.next(), None);
}

#[test]
fn iter_empty_left() {
    let left: Vec<(i32, &str)> = Vec::new();
    let right = vec![(1, "x")];

    let mut res = LeftJoin::new(&left, &right);
    assert_eq!(res.next(), None);
}

#[test]
fn iter_all_matched() {
    let left = vec![(1, "a"), (2, "b")];
    let right = vec![(1, "x"), (2, "y")];

    let mut res = LeftJoin::new(&left, &right);
    assert_eq!(res.next(), Some(("a", Some("x"))));
    assert_eq!(res.next(), Some(("b", Some("y"))));
    assert_eq!(res.next(), None);
}
