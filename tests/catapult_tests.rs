use grid_quests::catapult::{get_hit_position, get_rank_3, get_ranks, solve, solve_part_3};

fn grid(rows: &[&str]) -> Vec<Vec<char>> {
    rows.iter().map(|r| r.chars().collect()).collect()
}

#[test]
fn hit_positions() {
    assert_eq!(get_hit_position((6, 5)), (3, 2));
    assert_eq!(get_hit_position((7, 5)), (3, 1));
}

#[test]
fn rank_of_a_target() {
    assert_eq!(get_rank_3((1, 0), 2), 1);
    assert_eq!(get_rank_3((2, 0), 2), 2);
    assert_eq!(get_rank_3((1, 1), 2), 0);
}

#[test]
fn ranks_by_segment() {
    assert_eq!(get_ranks((3, 2)), Some(2));
    assert_eq!(get_ranks((3, 1)), Some(2));
}

#[test]
fn grid_score_parts() {
    let mut m = grid(&["..H", ".T.", "=.."]);
    assert_eq!(solve(&mut m, 1), 2);
    assert_eq!(solve(&mut m, 2), 4);
    let mut m = grid(&["..T", "...", "..."]);
    assert_eq!(solve(&mut m, 2), 2);
}

#[test]
fn meteor_total() {
    assert_eq!(solve_part_3(vec![(6, 5), (7, 5)]), Some(4));
    assert_eq!(solve_part_3(vec![]), Some(0));
}
