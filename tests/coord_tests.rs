use grid_quests::coord::Coord2;

#[test]
fn coord_new_keeps_fields() {
    let c = Coord2::new(3, -4);
    assert_eq!(c.x, 3);
    assert_eq!(c.y, -4);
}

#[test]
fn coord_add_sums_fields() {
    let a = Coord2::new(1, 2);
    let b = Coord2::new(-5, 7);
    assert_eq!(a.add(&b), Coord2::new(-4, 9));
}
