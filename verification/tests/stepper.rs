use collatz_attractors::{collatz_step, Point};

#[test]
fn step_halves_two_even_coordinates() {
    assert_eq!(collatz_step(&Point(2, 4)), Point(1, 2));
}

#[test]
fn step_triples_two_odd_coordinates() {
    assert_eq!(collatz_step(&Point(1, 1)), Point(4, 4));
    assert_eq!(collatz_step(&Point(3, 5)), Point(10, 16));
    assert_eq!(collatz_step(&Point(3, 1)), Point(10, 4));
}

#[test]
fn step_increments_larger_second_coordinate() {
    assert_eq!(collatz_step(&Point(1, 2)), Point(1, 3));
    assert_eq!(collatz_step(&Point(0, 1)), Point(0, 2));
}

#[test]
fn step_increments_larger_first_coordinate() {
    assert_eq!(collatz_step(&Point(3, 2)), Point(4, 2));
    assert_eq!(collatz_step(&Point(4, 1)), Point(5, 1));
}

#[test]
fn step_keeps_origin() {
    assert_eq!(collatz_step(&Point(0, 0)), Point(0, 0));
}

#[test]
fn step_wraps_at_coordinate_range() {
    assert_eq!(
        collatz_step(&Point(u32::MAX, u32::MAX)),
        Point(4_294_967_294, 4_294_967_294)
    );
    assert_eq!(collatz_step(&Point(u32::MAX, 0)), Point(0, 0));
    assert_eq!(collatz_step(&Point(2, u32::MAX)), Point(2, 0));
    assert_eq!(
        collatz_step(&Point(1_431_655_765, 1)),
        Point(0, 4)
    );
}

#[test]
fn step_is_deterministic() {
    let mut x: u32 = 0;
    while x < 40 {
        let mut y: u32 = 0;
        while y < 40 {
            let p = Point(x, y);
            assert_eq!(collatz_step(&p), collatz_step(&p));
            y += 1;
        }
        x += 1;
    }
}

#[test]
fn step_follows_known_cycle() {
    let cycle = vec![Point(1, 3), Point(4, 10), Point(2, 5), Point(2, 6)];
    let mut i = 0;
    while i < cycle.len() {
        assert_eq!(collatz_step(&cycle[i]), cycle[(i + 1) % cycle.len()]);
        i += 1;
    }
}
