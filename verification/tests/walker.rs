use collatz_attractors::{walk, Attractors, Outcome, Point};

#[test]
fn walk_from_fixed_point_converges() {
    let mut attrs = Attractors::new();
    assert_eq!(walk(&mut attrs, Point(0, 0), 5), Outcome::ConvergedToSelf(1));
    assert_eq!(attrs.basin_count(), 2);
    assert_eq!(attrs.cycle_type(1), &vec![Point(0, 0)]);
    assert_eq!(attrs.find(&Point(0, 0)), Some(1));
    assert_eq!(attrs.basin_size(1), 1);
}

#[test]
fn walk_collects_whole_trajectory() {
    let mut attrs = Attractors::new();
    assert_eq!(walk(&mut attrs, Point(3, 3), 50), Outcome::ConvergedToSelf(1));
    assert_eq!(
        attrs.cycle_type(1),
        &vec![Point(4, 4), Point(2, 2), Point(1, 1)]
    );
    assert_eq!(attrs.basin_size(1), 8);
    for p in [
        Point(3, 3),
        Point(10, 10),
        Point(5, 5),
        Point(16, 16),
        Point(8, 8),
        Point(4, 4),
        Point(2, 2),
        Point(1, 1),
    ] {
        assert_eq!(attrs.find(&p), Some(1));
    }
    assert_eq!(attrs.basin_size(0), 0);
}

#[test]
fn walk_converges_with_exactly_enough_budget() {
    // the successor of the third point is compared in the third iteration
    let mut attrs = Attractors::new();
    assert_eq!(walk(&mut attrs, Point(1, 1), 3), Outcome::ConvergedToSelf(1));
    assert_eq!(
        attrs.cycle_type(1),
        &vec![Point(1, 1), Point(4, 4), Point(2, 2)]
    );
}

#[test]
fn walk_merges_into_known_basin() {
    let mut attrs = Attractors::new();
    assert_eq!(walk(&mut attrs, Point(0, 0), 50), Outcome::ConvergedToSelf(1));
    assert_eq!(walk(&mut attrs, Point(1, 1), 50), Outcome::ConvergedToSelf(2));
    // (32, 32) -> (16, 16) -> (8, 8) -> (4, 4), which is classified
    assert_eq!(walk(&mut attrs, Point(32, 32), 50), Outcome::MergedIntoKnown(2));
    assert_eq!(attrs.basin_count(), 3);
    assert_eq!(attrs.basin_size(2), 6);
    assert_eq!(attrs.find(&Point(32, 32)), Some(2));
    assert_eq!(attrs.find(&Point(16, 16)), Some(2));
    assert_eq!(attrs.find(&Point(8, 8)), Some(2));
    assert_eq!(
        attrs.cycle_type(2),
        &vec![Point(1, 1), Point(4, 4), Point(2, 2)]
    );
}

#[test]
fn walk_merges_into_basin_zero() {
    let mut attrs = Attractors::new();
    attrs.add_chain_to_attr(vec![Point(16, 16)], 0);
    assert_eq!(walk(&mut attrs, Point(64, 64), 50), Outcome::MergedIntoKnown(0));
    assert_eq!(attrs.find(&Point(64, 64)), Some(0));
    assert_eq!(attrs.find(&Point(32, 32)), Some(0));
    assert_eq!(attrs.find(&Point(8, 8)), None);
    assert_eq!(attrs.basin_size(0), 3);
    assert_eq!(attrs.basin_count(), 1);
}

#[test]
fn walk_from_classified_point_stays_in_its_basin() {
    let mut attrs = Attractors::new();
    assert_eq!(walk(&mut attrs, Point(3, 3), 50), Outcome::ConvergedToSelf(1));
    assert_eq!(walk(&mut attrs, Point(5, 5), 50), Outcome::MergedIntoKnown(1));
    assert_eq!(walk(&mut attrs, Point(1, 1), 50), Outcome::MergedIntoKnown(1));
    assert_eq!(attrs.basin_count(), 2);
    assert_eq!(attrs.basin_size(1), 8);
}

#[test]
fn walk_from_known_fixed_point_finds_its_cycle_again() {
    let mut attrs = Attractors::new();
    assert_eq!(walk(&mut attrs, Point(0, 0), 5), Outcome::ConvergedToSelf(1));
    assert_eq!(walk(&mut attrs, Point(0, 0), 5), Outcome::ConvergedToSelf(1));
    assert_eq!(attrs.basin_count(), 2);
    assert_eq!(attrs.basin_size(1), 1);
}

#[test]
fn walk_gives_up_when_budget_is_used() {
    let mut attrs = Attractors::new();
    assert_eq!(walk(&mut attrs, Point(1, 1), 2), Outcome::BudgetExceeded);
    assert_eq!(attrs.basin_count(), 1);
    assert_eq!(attrs.basin_size(0), 3);
    assert_eq!(attrs.find(&Point(1, 1)), Some(0));
    assert_eq!(attrs.find(&Point(4, 4)), Some(0));
    assert_eq!(attrs.find(&Point(2, 2)), Some(0));
}

#[test]
fn walk_with_no_budget_gives_up_at_once() {
    let mut attrs = Attractors::new();
    assert_eq!(walk(&mut attrs, Point(0, 0), 0), Outcome::BudgetExceeded);
    assert_eq!(attrs.basin_count(), 1);
    assert_eq!(attrs.basin_size(0), 1);
    assert_eq!(attrs.find(&Point(0, 0)), Some(0));
}

#[test]
fn walk_after_giving_up_may_settle_the_same_point() {
    let mut attrs = Attractors::new();
    assert_eq!(walk(&mut attrs, Point(8, 8), 1), Outcome::BudgetExceeded);
    assert_eq!(attrs.find(&Point(4, 4)), Some(0));
    // (4, 4) was given up on; its successor (2, 2) is not classified
    assert_eq!(walk(&mut attrs, Point(4, 4), 10), Outcome::ConvergedToSelf(1));
    assert_eq!(
        attrs.cycle_type(1),
        &vec![Point(4, 4), Point(2, 2), Point(1, 1)]
    );
    assert_eq!(attrs.basin_size(0), 2);
    assert_eq!(attrs.basin_size(1), 3);
    assert_eq!(attrs.find(&Point(8, 8)), Some(0));
    assert_eq!(attrs.find(&Point(4, 4)), Some(0));
    assert_eq!(attrs.find(&Point(2, 2)), Some(1));
    assert_eq!(attrs.find(&Point(1, 1)), Some(1));
}
