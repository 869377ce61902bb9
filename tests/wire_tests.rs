use grid_quests::wire::{
    add_wire, contains, leaf_bfs, solve_part_1, solve_part_2, solve_part_3, unit_cells, Direction,
    Point, Step,
};

fn wire(text: &str) -> Vec<Step> {
    text.split(',')
        .map(|s| {
            let (d, n) = s.split_at(1);
            Step {
                direction: Direction::from_char(d.chars().next().unwrap()).unwrap(),
                count: n.parse().unwrap(),
            }
        })
        .collect()
}

#[test]
fn two_wires_from_origin() {
    let wires = vec![wire("R3"), wire("U3")];
    assert_eq!(solve_part_2(&wires), 6);
    let mut segments = Vec::new();
    add_wire(&mut segments, &wires[0]);
    add_wire(&mut segments, &wires[1]);
    assert!(!contains(&segments, Point::new(0, 0, 0)));
    // Only the upward wire touches the axis; its end is on it.
    assert_eq!(solve_part_3(&wires), Some(0));
}

#[test]
fn rewalking_adds_nothing() {
    let w = wire("U5,R3,D2,L5,F2,B1");
    let once = vec![w.clone()];
    let twice = vec![w.clone(), w];
    assert_eq!(solve_part_2(&once), solve_part_2(&twice));
}

#[test]
fn overlapping_wires_counted_once() {
    let wires = vec![wire("U3,R2"), wire("U2,L1")];
    assert_eq!(solve_part_2(&wires), 6);
}

#[test]
fn highest_point() {
    assert_eq!(solve_part_1(&wire("U5,R3,D2,U4,D10")), 7);
    assert_eq!(solve_part_1(&wire("D3,R1")), 0);
}

#[test]
fn step_moves_along_one_axis() {
    let p = Point::new(1, 2, 3);
    let up = Step { direction: Direction::U, count: 4 };
    let back = Step { direction: Direction::B, count: 2 };
    assert_eq!(p.step(&up), Point::new(1, 6, 3));
    assert_eq!(p.step(&back), Point::new(1, 2, 1));
    assert_eq!(p.add(&Point::new(-1, 1, 0)), Point::new(0, 3, 3));
}

#[test]
fn direction_letters() {
    assert_eq!(Direction::from_char('F'), Some(Direction::F));
    assert_eq!(Direction::from_char('L'), Some(Direction::L));
    assert_eq!(Direction::from_char('x'), None);
}

#[test]
fn cells_of_a_step() {
    let cells = unit_cells(Point::new(0, 0, 0), &Step { direction: Direction::L, count: 3 });
    assert_eq!(cells, vec![Point::new(-1, 0, 0), Point::new(-2, 0, 0), Point::new(-3, 0, 0)]);
}

#[test]
fn bfs_reaches_each_cell_once() {
    let segments = vec![
        Point::new(0, 1, 0),
        Point::new(0, 2, 0),
        Point::new(1, 2, 0),
        Point::new(0, 3, 0),
        Point::new(5, 5, 5),
    ];
    let (seen, dist) = leaf_bfs(&segments, Point::new(0, 3, 0));
    assert_eq!(seen.len(), 4);
    assert_eq!(dist, vec![0, 1, 2, 2]);
    assert!(!seen.contains(&Point::new(5, 5, 5)));
}

#[test]
fn murkiness_sums_over_leaves() {
    // A trunk up the y axis with two branches; each leaf's depth to each trunk cell is summed.
    let wires = vec![wire("U4,R2"), wire("U4,L2")];
    // Leaves (2,4,0) and (-2,4,0); trunk cell (0,4,0) is two steps from each.
    assert_eq!(solve_part_3(&wires), Some(4));
}

#[test]
fn duplicated_wire_keeps_answer() {
    let wires = vec![wire("U4,R2"), wire("U4,L2")];
    let mut more = wires.clone();
    more.push(wires[0].clone());
    assert_eq!(solve_part_3(&more), solve_part_3(&wires));
}

#[test]
fn no_axis_cell_reached() {
    assert_eq!(solve_part_3(&vec![wire("R3")]), None);
}
