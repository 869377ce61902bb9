use grid_quests::coord::Coord2;
use grid_quests::flood::{count, distances, find_starts, is_valid, solve, solve_part_3};

fn grid(rows: &[&str]) -> Vec<Vec<char>> {
    rows.iter().map(|r| r.chars().collect()).collect()
}

#[test]
fn single_start_two_targets() {
    let m = grid(&["P.P"]);
    assert_eq!(solve(&m, &vec![Coord2::new(1, 0)], 2), Some((1, 2)));
}

#[test]
fn depth_grows_with_targets_required() {
    let m = grid(&["#.#####", "#P..P.#", "#.##.##", "#..P..."]);
    let starts = find_starts(&m, true);
    let mut last = 0;
    for n in 1..=3 {
        let (d, t) = solve(&m, &starts, n).unwrap();
        assert!(d >= last);
        assert!(d <= t);
        last = d;
    }
    assert_eq!(solve(&m, &starts, 4), None);
}

#[test]
fn zero_targets_is_none() {
    let m = grid(&["P.P"]);
    assert_eq!(solve(&m, &vec![Coord2::new(1, 0)], 0), None);
}

#[test]
fn unreachable_target_is_none() {
    let m = grid(&[".#P"]);
    assert_eq!(solve(&m, &vec![Coord2::new(0, 0)], 1), None);
}

#[test]
fn counts_characters() {
    let m = grid(&["P.P", "#P#"]);
    assert_eq!(count(&m, 'P'), 3);
    assert_eq!(count(&m, '#'), 2);
    assert_eq!(count(&m, 'x'), 0);
}

#[test]
fn validity_of_points() {
    let m = grid(&["P.#"]);
    assert!(is_valid(&m, Coord2::new(0, 0)));
    assert!(is_valid(&m, Coord2::new(1, 0)));
    assert!(!is_valid(&m, Coord2::new(2, 0)));
    assert!(!is_valid(&m, Coord2::new(3, 0)));
    assert!(!is_valid(&m, Coord2::new(-1, 0)));
    assert!(!is_valid(&m, Coord2::new(0, 1)));
}

#[test]
fn starts_on_edges_only() {
    let m = grid(&["#.#", "...", "#.#"]);
    let edge = find_starts(&m, true);
    assert_eq!(
        edge,
        vec![Coord2::new(1, 0), Coord2::new(0, 1), Coord2::new(2, 1), Coord2::new(1, 2)]
    );
    let all = find_starts(&m, false);
    assert_eq!(all.len(), 5);
    assert!(all.contains(&Coord2::new(1, 1)));
}

#[test]
fn best_single_start() {
    let m = grid(&["P...P"]);
    // From the middle both targets are two steps away; from anywhere else the total is 4 too.
    assert_eq!(solve_part_3(&m), Some(4));
    let m = grid(&["P..#", "...P"]);
    assert_eq!(solve_part_3(&m), Some(4));
    let m = grid(&["P.....P", "#####.#"]);
    assert_eq!(solve_part_3(&m), Some(6));
}

#[test]
fn no_targets_part_3() {
    let m = grid(&["..."]);
    assert_eq!(solve_part_3(&m), None);
}

#[test]
fn shortest_distances_per_cell() {
    let m = grid(&["..#", "#..", "..."]);
    let d = distances(&m, &vec![Coord2::new(0, 0)]);
    assert_eq!(d, vec![0, 1, -1, -1, 2, 3, 4, 3, 4]);
}

#[test]
fn total_grows_by_new_depth() {
    let m = grid(&["P..P", "....", "P..P"]);
    let starts = vec![Coord2::new(1, 1)];
    let mut prev: Option<(i32, i32)> = None;
    for n in 1..=4 {
        let (d, t) = solve(&m, &starts, n).unwrap();
        if let Some((pd, pt)) = prev {
            assert!(d >= pd);
            assert_eq!(t, pt + d);
        }
        prev = Some((d, t));
    }
    assert_eq!(prev, Some((3, 2 + 2 + 3 + 3)));
    assert_eq!(solve(&m, &starts, 5), None);
}
