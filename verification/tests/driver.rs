use collatz_attractors::{explore, push_decimal, render_matrix, Attractors, Point};

fn text(bytes: Option<Vec<u8>>) -> String {
    String::from_utf8(bytes.unwrap()).unwrap()
}

#[test]
fn explore_small_lattice() {
    let attrs = explore(4, 50);
    assert_eq!(attrs.basin_count(), 5);
    assert!(attrs.cycle_type(0).is_empty());
    assert_eq!(attrs.cycle_type(1), &vec![Point(0, 0)]);
    assert_eq!(attrs.cycle_type(2), &vec![Point(0, 1), Point(0, 2)]);
    assert_eq!(
        attrs.cycle_type(3),
        &vec![Point(1, 1), Point(4, 4), Point(2, 2)]
    );
    assert_eq!(
        attrs.cycle_type(4),
        &vec![Point(1, 3), Point(4, 10), Point(2, 5), Point(2, 6)]
    );
    let sizes: Vec<usize> = (0..5).map(|k| attrs.basin_size(k)).collect();
    assert_eq!(sizes, vec![0, 1, 4, 8, 7]);
    assert_eq!(
        text(render_matrix(&attrs, 4)),
        "1\t2\t2\t2\n\t3\t4\t4\n\t\t3\t4\n\t\t\t3\n"
    );
}

#[test]
fn explore_classifies_every_starting_point() {
    let size: u32 = 12;
    let attrs = explore(size, 50);
    let count = attrs.basin_count();
    assert_eq!(count, 7);
    let mut starts = 0;
    for r in 0..size {
        for c in r..size {
            let found = attrs.find(&Point(r, c));
            assert!(matches!(found, Some(k) if k < count));
            starts += 1;
        }
    }
    assert_eq!(starts, 78);
    // nothing was given up on, so every starting point is in exactly one basin
    for r in 0..size {
        for c in r..size {
            let homes = (0..count)
                .filter(|k| attrs.is_member(*k, &Point(r, c)))
                .count();
            assert_eq!(homes, 1);
        }
    }
    // trajectories leave the lattice, so the basins hold more than the starting points
    let members: usize = (0..count).map(|k| attrs.basin_size(k)).sum();
    assert_eq!(members, 150);
    assert_eq!(attrs.basin_size(0), 0);
    assert_eq!(
        text(render_matrix(&attrs, size)),
        "1\t2\t2\t2\t2\t2\t2\t2\t2\t2\t2\t2\n\
         \t3\t4\t4\t5\t5\t6\t6\t6\t6\t6\t6\n\
         \t\t3\t4\t4\t4\t4\t5\t5\t5\t5\t6\n\
         \t\t\t3\t4\t4\t4\t4\t4\t4\t5\t5\n\
         \t\t\t\t3\t4\t4\t4\t4\t4\t4\t4\n\
         \t\t\t\t\t3\t4\t4\t4\t4\t4\t4\n\
         \t\t\t\t\t\t3\t4\t4\t4\t4\t4\n\
         \t\t\t\t\t\t\t3\t4\t4\t4\t4\n\
         \t\t\t\t\t\t\t\t3\t4\t4\t4\n\
         \t\t\t\t\t\t\t\t\t3\t4\t4\n\
         \t\t\t\t\t\t\t\t\t\t3\t4\n\
         \t\t\t\t\t\t\t\t\t\t\t3\n"
    );
}

#[test]
fn explore_without_budget_gives_up_on_every_point() {
    let attrs = explore(3, 0);
    assert_eq!(attrs.basin_count(), 1);
    assert_eq!(attrs.basin_size(0), 6);
    assert_eq!(text(render_matrix(&attrs, 3)), "0\t0\t0\n\t0\t0\n\t\t0\n");
}

#[test]
fn explore_with_budget_of_one_finds_the_fixed_point() {
    let attrs = explore(3, 1);
    assert_eq!(attrs.basin_count(), 2);
    assert_eq!(attrs.cycle_type(1), &vec![Point(0, 0)]);
    assert_eq!(attrs.basin_size(0), 7);
    assert_eq!(attrs.basin_size(1), 1);
    assert_eq!(text(render_matrix(&attrs, 3)), "1\t0\t0\n\t0\t0\n\t\t0\n");
}

#[test]
fn explore_with_short_budget_keeps_first_basin() {
    // (8, 8) is given up on in the walk from (3, 3) and merges in its own walk
    let attrs = explore(9, 4);
    assert_eq!(attrs.basin_count(), 5);
    assert_eq!(
        attrs.cycle_type(3),
        &vec![Point(1, 1), Point(4, 4), Point(2, 2)]
    );
    assert_eq!(
        attrs.cycle_type(4),
        &vec![Point(1, 4), Point(1, 5), Point(4, 16), Point(2, 8)]
    );
    let sizes: Vec<usize> = (0..5).map(|k| attrs.basin_size(k)).collect();
    assert_eq!(sizes, vec![58, 1, 8, 4, 5]);
    assert_eq!(attrs.find(&Point(8, 8)), Some(0));
    assert!(attrs.is_member(0, &Point(8, 8)));
    assert!(attrs.is_member(3, &Point(8, 8)));
    // no point is in two basins other than basin 0
    for r in 0..40 {
        for c in 0..40 {
            let homes = (1..5).filter(|k| attrs.is_member(*k, &Point(r, c))).count();
            assert!(homes <= 1);
        }
    }
    assert_eq!(
        text(render_matrix(&attrs, 9)),
        "1\t2\t2\t2\t2\t2\t2\t2\t2\n\
         \t3\t0\t0\t4\t4\t0\t0\t0\n\
         \t\t3\t0\t0\t0\t0\t4\t4\n\
         \t\t\t0\t0\t0\t0\t0\t0\n\
         \t\t\t\t3\t0\t0\t0\t0\n\
         \t\t\t\t\t0\t0\t0\t0\n\
         \t\t\t\t\t\t0\t0\t0\n\
         \t\t\t\t\t\t\t0\t0\n\
         \t\t\t\t\t\t\t\t0\n"
    );
}

#[test]
fn explore_empty_lattice() {
    let attrs = explore(0, 50);
    assert_eq!(attrs.basin_count(), 1);
    assert_eq!(attrs.basin_size(0), 0);
    assert_eq!(render_matrix(&attrs, 0), Some(vec![]));
}

#[test]
fn render_matrix_of_smaller_lattice() {
    let attrs = explore(4, 50);
    assert_eq!(text(render_matrix(&attrs, 2)), "1\t2\n\t3\n");
    assert_eq!(text(render_matrix(&attrs, 1)), "1\n");
}

#[test]
fn render_matrix_needs_every_point_classified() {
    let attrs = Attractors::new();
    assert_eq!(render_matrix(&attrs, 1), None);
    assert_eq!(render_matrix(&attrs, 0), Some(vec![]));
    let attrs = explore(3, 50);
    assert_eq!(render_matrix(&attrs, 9), None);
    // (0, 3) lies on the trajectory of no point of the smaller lattice
    assert_eq!(render_matrix(&attrs, 4), None);
}

#[test]
fn push_decimal_writes_digits() {
    let mut out: Vec<u8> = Vec::new();
    push_decimal(&mut out, 0);
    assert_eq!(out, b"0".to_vec());
    push_decimal(&mut out, 7);
    assert_eq!(out, b"07".to_vec());
    push_decimal(&mut out, 10);
    assert_eq!(out, b"0710".to_vec());
    let mut out: Vec<u8> = Vec::new();
    push_decimal(&mut out, 1234);
    assert_eq!(out, b"1234".to_vec());
    let mut out: Vec<u8> = vec![9];
    push_decimal(&mut out, 100_200);
    assert_eq!(out, b"\t100200".to_vec());
    let mut out: Vec<u8> = Vec::new();
    push_decimal(&mut out, usize::MAX);
    assert_eq!(String::from_utf8(out).unwrap(), format!("{}", usize::MAX));
}
