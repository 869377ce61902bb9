use grid_quests::dial_search::{
    bfs, compute_cost, digit_value, find_adjacent_points, find_start, search, TerrainPoint,
};

fn grid(rows: &[&str]) -> Vec<Vec<char>> {
    rows.iter().map(|r| r.chars().collect()).collect()
}

fn tp(value: char) -> TerrainPoint {
    TerrainPoint { x: 0, y: 0, value }
}

#[test]
fn cost_by_difference() {
    assert_eq!(compute_cost(tp('0'), tp('6')), 5);
    assert_eq!(compute_cost(tp('0'), tp('9')), 2);
    assert_eq!(compute_cost(tp('4'), tp('4')), 1);
    assert_eq!(compute_cost(tp('2'), tp('7')), 6);
    assert_eq!(compute_cost(tp('S'), tp('3')), 4);
}

#[test]
fn cost_is_symmetric() {
    for a in '0'..='9' {
        for b in '0'..='9' {
            assert_eq!(compute_cost(tp(a), tp(b)), compute_cost(tp(b), tp(a)));
        }
    }
}

#[test]
fn digit_values() {
    assert_eq!(digit_value('7'), 7);
    assert_eq!(digit_value('#'), 0);
    assert_eq!(digit_value('E'), 0);
}

#[test]
fn search_on_one_row() {
    let m = grid(&["159"]);
    let start = TerrainPoint { x: 0, y: 0, value: '1' };
    assert_eq!(search(&m, start, '9'), 10);
}

#[test]
fn goal_walled_off() {
    let m = grid(&["S.#..", "..#E.", "..###"]);
    assert_eq!(bfs(&m, false), -1);
}

#[test]
fn no_start_in_grid() {
    let m = grid(&["...", "..E"]);
    assert_eq!(bfs(&m, false), -1);
}

#[test]
fn plain_path_costs_one_per_step() {
    let m = grid(&["S..E"]);
    assert_eq!(bfs(&m, false), 3);
    assert_eq!(bfs(&m, true), 3);
}

#[test]
fn least_cost_over_equal_paths() {
    // Two routes of equal cost round the wall; either gives the same total.
    let m = grid(&["S.1", "1#.", "..E"]);
    assert_eq!(bfs(&m, false), 6);
}

#[test]
fn wrap_around_is_cheaper() {
    // 0 to 9 costs 2 the short way round the dial.
    let m = grid(&["S9E"]);
    assert_eq!(bfs(&m, false), 4);
}

#[test]
fn find_start_takes_last_row_first_column() {
    let m = grid(&["S..S", ".S.S", "...."]);
    let s = find_start(&m, false);
    assert_eq!((s.x, s.y, s.value), (1, 1, 'S'));
    let none = find_start(&m, true);
    assert_eq!((none.x, none.y, none.value), (0, 0, 'E'));
}

#[test]
fn adjacent_in_order_up_right_down_left() {
    let m = grid(&["a#c", "def", "g#i"]);
    let p = TerrainPoint { x: 1, y: 1, value: 'e' };
    let adj = find_adjacent_points(&m, p);
    let got: Vec<(i32, i32, char)> = adj.iter().map(|q| (q.x, q.y, q.value)).collect();
    assert_eq!(got, vec![(2, 1, 'f'), (0, 1, 'd')]);
    let corner = TerrainPoint { x: 0, y: 0, value: 'a' };
    let adj = find_adjacent_points(&m, corner);
    let got: Vec<(i32, i32, char)> = adj.iter().map(|q| (q.x, q.y, q.value)).collect();
    assert_eq!(got, vec![(0, 1, 'd')]);
}
