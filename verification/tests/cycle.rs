use collatz_attractors::cycle::position;
use collatz_attractors::{cyclic_eq, Point};

#[test]
fn cyclic_eq_accepts_rotations() {
    let a = Point(1, 1);
    let b = Point(4, 4);
    let c = Point(2, 2);
    assert!(cyclic_eq(&vec![a, b, c], &vec![b, c, a]));
    assert!(cyclic_eq(&vec![a, b, c], &vec![c, a, b]));
    assert!(cyclic_eq(&vec![a, b, c], &vec![a, b, c]));
    assert!(cyclic_eq(&vec![b, c, a], &vec![a, b, c]));
}

#[test]
fn cyclic_eq_rejects_reflection() {
    let a = Point(1, 1);
    let b = Point(4, 4);
    let c = Point(2, 2);
    assert!(!cyclic_eq(&vec![a, b, c], &vec![a, c, b]));
    assert!(!cyclic_eq(&vec![a, b, c], &vec![c, b, a]));
}

#[test]
fn cyclic_eq_rejects_different_lengths() {
    let a = Point(1, 1);
    let b = Point(4, 4);
    let c = Point(2, 2);
    assert!(!cyclic_eq(&vec![a, b], &vec![a, b, c]));
    assert!(!cyclic_eq(&vec![a, b, c], &vec![a, b]));
    assert!(!cyclic_eq(&vec![], &vec![a]));
    assert!(!cyclic_eq(&vec![a], &vec![]));
}

#[test]
fn cyclic_eq_rejects_two_empty_sequences() {
    assert!(!cyclic_eq(&vec![], &vec![]));
}

#[test]
fn cyclic_eq_rejects_missing_first_point() {
    let a = Point(1, 1);
    let b = Point(4, 4);
    let c = Point(2, 2);
    let d = Point(7, 7);
    assert!(!cyclic_eq(&vec![d, b, c], &vec![a, b, c]));
}

#[test]
fn cyclic_eq_single_points() {
    assert!(cyclic_eq(&vec![Point(0, 0)], &vec![Point(0, 0)]));
    assert!(!cyclic_eq(&vec![Point(0, 0)], &vec![Point(0, 1)]));
}

#[test]
fn cyclic_eq_decides_at_first_occurrence() {
    let x = Point(1, 0);
    let y = Point(2, 0);
    let z = Point(3, 0);
    // a rotation by two places, but the first `x` of the second sequence is at 0
    assert!(!cyclic_eq(&vec![x, y, x, z], &vec![x, z, x, y]));
    assert!(cyclic_eq(&vec![x, y, x, z], &vec![x, y, x, z]));
}

#[test]
fn position_finds_first_occurrence() {
    let s = vec![Point(1, 1), Point(4, 4), Point(1, 1), Point(2, 2)];
    assert_eq!(position(&s, &Point(1, 1)), Some(0));
    assert_eq!(position(&s, &Point(4, 4)), Some(1));
    assert_eq!(position(&s, &Point(2, 2)), Some(3));
    assert_eq!(position(&s, &Point(9, 9)), None);
    assert_eq!(position(&vec![], &Point(0, 0)), None);
}
