use vstd::prelude::*;

verus! {

/// A point of space with integer coordinates.
#[derive(Clone, Copy, PartialEq, Eq, Structural, Hash, Debug)]
pub struct Point {
    pub x: i32,
    pub y: i32,
    pub z: i32,
}

/// One of the six unit directions: up and down along y, right and left along x, forward and
/// backward along z.
#[derive(Clone, Copy, PartialEq, Eq, Structural, Hash, Debug)]
pub enum Direction {
    U,
    D,
    R,
    L,
    F,
    B,
}

/// A move of `count` units in one direction.
#[derive(Clone, Copy, PartialEq, Eq, Structural, Hash, Debug)]
pub struct Step {
    pub direction: Direction,
    pub count: i32,
}

pub open spec fn origin() -> Point {
    Point { x: 0, y: 0, z: 0 }
}

/// The point `n` units from `p` in direction `d`.
pub open spec fn moved(p: Point, d: Direction, n: int) -> Point {
    match d {
        Direction::U => Point { y: (p.y + n) as i32, ..p },
        Direction::D => Point { y: (p.y - n) as i32, ..p },
        Direction::R => Point { x: (p.x + n) as i32, ..p },
        Direction::L => Point { x: (p.x - n) as i32, ..p },
        Direction::F => Point { z: (p.z + n) as i32, ..p },
        Direction::B => Point { z: (p.z - n) as i32, ..p },
    }
}

/// Whether moving `n` units from `p` in direction `d` stays within `i32`.
pub open spec fn move_fits(p: Point, d: Direction, n: int) -> bool {
    match d {
        Direction::U => i32::MIN <= p.y + n <= i32::MAX,
        Direction::D => i32::MIN <= p.y - n <= i32::MAX,
        Direction::R => i32::MIN <= p.x + n <= i32::MAX,
        Direction::L => i32::MIN <= p.x - n <= i32::MAX,
        Direction::F => i32::MIN <= p.z + n <= i32::MAX,
        Direction::B => i32::MIN <= p.z - n <= i32::MAX,
    }
}

/// The distance from the origin counted along the axes.
pub open spec fn norm(p: Point) -> int {
    (if p.x >= 0 { p.x as int } else { -p.x }) + (if p.y >= 0 { p.y as int } else { -p.y }) + (
    if p.z >= 0 {
        p.z as int
    } else {
        -p.z
    })
}

/// The unit cells passed when taking `s` from `head`, the last one included.
pub open spec fn run(head: Point, s: Step) -> Seq<Point> {
    Seq::new(
        (if s.count >= 0 {
            s.count as nat
        } else {
            0nat
        }),
        |i: int| moved(head, s.direction, i + 1),
    )
}

/// Where a wire of `steps` ends when it starts at the origin.
pub open spec fn end_of(steps: Seq<Step>) -> Point
    decreases steps.len(),
{
    if steps.len() == 0 {
        origin()
    } else {
        moved(end_of(steps.drop_last()), steps.last().direction, steps.last().count as int)
    }
}

/// The unit cells that a wire of `steps` passes, in order, the origin left out.
pub open spec fn path(steps: Seq<Step>) -> Seq<Point>
    decreases steps.len(),
{
    if steps.len() == 0 {
        seq![]
    } else {
        path(steps.drop_last()) + run(end_of(steps.drop_last()), steps.last())
    }
}

/// The sum of the counts of `steps`.
pub open spec fn total_len(steps: Seq<Step>) -> int
    decreases steps.len(),
{
    if steps.len() == 0 {
        0
    } else {
        total_len(steps.drop_last()) + steps.last().count
    }
}

/// A wire whose counts are not negative and whose length fits an `i32`, so that every point
/// on it does.
pub open spec fn wire_ok(steps: Seq<Step>) -> bool {
    (forall|i: int| 0 <= i < steps.len() ==> (#[trigger] steps[i]).count >= 0) && total_len(steps)
        <= i32::MAX
}

/// The highest that the end of a prefix of `steps` reaches, and never below zero.
pub open spec fn top(steps: Seq<Step>) -> int
    decreases steps.len(),
{
    if steps.len() == 0 {
        0
    } else {
        let t = top(steps.drop_last());
        let y = end_of(steps).y as int;
        if y > t {
            y
        } else {
            t
        }
    }
}

/// Every cell that one of the wires passes.
pub open spec fn segment_set(wires: Seq<Vec<Step>>) -> Set<Point>
    decreases wires.len(),
{
    if wires.len() == 0 {
        Set::empty()
    } else {
        segment_set(wires.drop_last()).union(path(wires.last()@).to_set())
    }
}

pub proof fn lemma_wire_prefix(steps: Seq<Step>, k: int)
    requires
        wire_ok(steps),
        0 <= k <= steps.len(),
    ensures
        wire_ok(steps.take(k)),
        total_len(steps.take(k)) <= total_len(steps),
    decreases steps.len(),
{
    if k < steps.len() {
        let s = steps.drop_last();
        assert(s.take(k) =~= steps.take(k));
        lemma_total_nonneg(steps);
        lemma_wire_prefix(s, k);
    } else {
        assert(steps.take(k) =~= steps);
    }
}

proof fn lemma_total_nonneg(steps: Seq<Step>)
    requires
        forall|i: int| 0 <= i < steps.len() ==> (#[trigger] steps[i]).count >= 0,
    ensures
        0 <= total_len(steps),
        steps.len() > 0 ==> total_len(steps.drop_last()) + steps.last().count == total_len(steps),
    decreases steps.len(),
{
    if steps.len() > 0 {
        let s = steps.drop_last();
        assert forall|i: int| 0 <= i < s.len() implies (#[trigger] s[i]).count >= 0 by {
            assert(s[i] == steps[i]);
        }
        lemma_total_nonneg(s);
    }
}

/// A wire's end lies no farther from the origin than its length.
pub proof fn lemma_end_bound(steps: Seq<Step>)
    requires
        wire_ok(steps),
    ensures
        norm(end_of(steps)) <= total_len(steps),
    decreases steps.len(),
{
    if steps.len() > 0 {
        let s = steps.drop_last();
        lemma_total_nonneg(steps);
        assert forall|i: int| 0 <= i < s.len() implies (#[trigger] s[i]).count >= 0 by {
            assert(s[i] == steps[i]);
        }
        lemma_total_nonneg(s);
        lemma_end_bound(s);
    }
}

impl Point {
    pub fn new(x: i32, y: i32, z: i32) -> (r: Point)
        ensures
            r == (Point { x, y, z }),
    {
        Point { x, y, z }
    }

    /// The point reached by taking `step` from `self`.
    pub fn step(&self, step: &Step) -> (r: Point)
        requires
            move_fits(*self, step.direction, step.count as int),
        ensures
            r == moved(*self, step.direction, step.count as int),
    {
        let mut point = *self;
        match step.direction {
            Direction::U => point.y = point.y + step.count,
            Direction::D => point.y = point.y - step.count,
            Direction::R => point.x = point.x + step.count,
            Direction::L => point.x = point.x - step.count,
            Direction::F => point.z = point.z + step.count,
            Direction::B => point.z = point.z - step.count,
        }
        point
    }

    /// Vector addition; each sum must fit in an `i32`.
    pub fn add(&self, point: &Point) -> (r: Point)
        requires
            i32::MIN <= self.x + point.x <= i32::MAX,
            i32::MIN <= self.y + point.y <= i32::MAX,
            i32::MIN <= self.z + point.z <= i32::MAX,
        ensures
            r == (Point { x: (self.x + point.x) as i32, y: (self.y + point.y) as i32, z: (self.z + point.z) as i32 }),
    {
        Point { x: self.x + point.x, y: self.y + point.y, z: self.z + point.z }
    }
}

impl Direction {
    /// The direction that a letter names, if any.
    pub fn from_char(c: char) -> (r: Option<Direction>)
        ensures
            r == (match c {
                'U' => Some(Direction::U),
                'D' => Some(Direction::D),
                'R' => Some(Direction::R),
                'L' => Some(Direction::L),
                'F' => Some(Direction::F),
                'B' => Some(Direction::B),
                _ => None,
            }),
    {
        match c {
            'U' => Some(Direction::U),
            'D' => Some(Direction::D),
            'R' => Some(Direction::R),
            'L' => Some(Direction::L),
            'F' => Some(Direction::F),
            'B' => Some(Direction::B),
            _ => None,
        }
    }
}

/// The unit cells passed when taking `step` from `head`, in order, ending where the step ends.
pub fn unit_cells(head: Point, step: &Step) -> (r: Vec<Point>)
    requires
        step.count >= 0,
        norm(head) + step.count <= i32::MAX,
    ensures
        r@ == run(head, *step),
{
    let mut cells: Vec<Point> = Vec::new();
    let mut current = head;
    let unit = Step { direction: step.direction, count: 1 };
    let mut i: i32 = 0;
    while i < step.count
        invariant
            0 <= i <= step.count,
            norm(head) + step.count <= i32::MAX,
            unit == (Step { direction: step.direction, count: 1 }),
            current == moved(head, step.direction, i as int),
            cells@ == run(head, *step).take(i as int),
        decreases step.count - i,
    {
        current = current.step(&unit);
        i = i + 1;
        cells.push(current);
        assert(cells@ =~= run(head, *step).take(i as int));
    }
    assert(cells@ =~= run(head, *step));
    cells
}

/// The greatest height that the head reaches at the end of a step, from the origin, and zero
/// when it never rises.
pub fn solve_part_1(inputs: &Vec<Step>) -> (r: i32)
    requires
        wire_ok(inputs@),
    ensures
        r == top(inputs@),
{
    let mut max: i32 = 0;
    let mut head = Point { x: 0, y: 0, z: 0 };
    let mut i: usize = 0;
    while i < inputs.len()
        invariant
            wire_ok(inputs@),
            i <= inputs@.len(),
            head == end_of(inputs@.take(i as int)),
            max == top(inputs@.take(i as int)),
        decreases inputs.len() - i,
    {
        let ghost pre = inputs@.take(i as int);
        let ghost next = inputs@.take(i as int + 1);
        proof {
            assert(next.drop_last() =~= pre);
            lemma_wire_prefix(inputs@, i as int + 1);
            lemma_wire_prefix(next, i as int);
            lemma_end_bound(pre);
            lemma_total_nonneg(next);
        }
        head = head.step(&inputs[i]);
        if head.y > max {
            max = head.y;
        }
        i = i + 1;
    }
    assert(inputs@.take(i as int) =~= inputs@);
    max
}

proof fn lemma_run_norm(head: Point, s: Step, i: int)
    requires
        s.count >= 0,
        norm(head) + s.count <= i32::MAX,
        0 <= i < s.count,
    ensures
        run(head, s)[i] == moved(head, s.direction, i + 1),
        norm(run(head, s)[i]) <= norm(head) + s.count,
{
}

/// Whether `v` holds `p`.
pub fn contains(v: &Vec<Point>, p: Point) -> (r: bool)
    ensures
        r == v@.contains(p),
{
    let mut i: usize = 0;
    while i < v.len()
        invariant
            i <= v@.len(),
            forall|j: int| 0 <= j < i ==> v@[j] != p,
        decreases v.len() - i,
    {
        if v[i] == p {
            return true;
        }
        i = i + 1;
    }
    false
}

/// Appends `p` unless `v` already holds it.
fn insert_unique(v: &mut Vec<Point>, p: Point)
    requires
        old(v)@.no_duplicates(),
    ensures
        final(v)@.no_duplicates(),
        final(v)@.to_set() == old(v)@.to_set().insert(p),
        final(v)@.len() <= old(v)@.len() + 1,
        forall|i: int| 0 <= i < final(v)@.len() ==> old(v)@.contains(#[trigger] final(v)@[i]) || final(v)@[i] == p,
{
    if !contains(v, p) {
        v.push(p);
        assert forall|i: int| 0 <= i < v@.len() implies old(v)@.contains(#[trigger] v@[i]) || v@[i] == p by {
            if i < old(v)@.len() {
                assert(old(v)@[i] == v@[i]);
            }
        }
        assert(v@.to_set() =~= old(v)@.to_set().insert(p)) by {
            assert forall|q: Point| v@.to_set().contains(q) implies old(v)@.to_set().insert(p).contains(q) by {
                let i = choose|i: int| 0 <= i < v@.len() && v@[i] == q;
                if i < v@.len() - 1 {
                    assert(old(v)@[i] == q);
                }
            }
            assert forall|q: Point| old(v)@.to_set().insert(p).contains(q) implies v@.to_set().contains(q) by {
                if q == p {
                    assert(v@[v@.len() - 1] == p);
                } else {
                    let i = choose|i: int| 0 <= i < old(v)@.len() && old(v)@[i] == q;
                    assert(v@[i] == q);
                }
            }
        }
    } else {
        assert(old(v)@.to_set() =~= old(v)@.to_set().insert(p));
    }
}

/// Walks a wire from the origin, adding each unit cell that it passes to `segments`, and
/// returns where it ends.
pub fn add_wire(segments: &mut Vec<Point>, wire: &Vec<Step>) -> (r: Point)
    requires
        old(segments)@.no_duplicates(),
        wire_ok(wire@),
    ensures
        final(segments)@.no_duplicates(),
        final(segments)@.to_set() == old(segments)@.to_set().union(path(wire@).to_set()),
        r == end_of(wire@),
        forall|i: int|
            0 <= i < final(segments)@.len() ==> old(segments)@.contains(#[trigger] final(segments)@[i])
                || norm(final(segments)@[i]) <= total_len(wire@),
{
    let mut head = Point { x: 0, y: 0, z: 0 };
    let mut i: usize = 0;
    assert(path(wire@.take(0)).to_set() =~= Set::empty());
    assert(old(segments)@.to_set() =~= old(segments)@.to_set().union(Set::empty()));
    while i < wire.len()
        invariant
            wire_ok(wire@),
            i <= wire@.len(),
            head == end_of(wire@.take(i as int)),
            segments@.no_duplicates(),
            segments@.to_set() == old(segments)@.to_set().union(path(wire@.take(i as int)).to_set()),
            forall|k: int|
                0 <= k < segments@.len() ==> old(segments)@.contains(#[trigger] segments@[k])
                    || norm(segments@[k]) <= total_len(wire@),
        decreases wire.len() - i,
    {
        let ghost pre = wire@.take(i as int);
        let ghost next = wire@.take(i as int + 1);
        let ghost before = segments@.to_set();
        proof {
            assert(next.drop_last() =~= pre);
            lemma_wire_prefix(wire@, i as int + 1);
            lemma_wire_prefix(next, i as int);
            lemma_end_bound(pre);
            lemma_total_nonneg(next);
            lemma_wire_prefix(wire@, i as int + 1);
        }
        let cells = unit_cells(head, &wire[i]);
        proof {
            assert forall|k: int| 0 <= k < cells@.len() implies norm(#[trigger] cells@[k]) <= total_len(wire@) by {
                lemma_run_norm(head, wire@[i as int], k);
            }
        }
        let mut j: usize = 0;
        while j < cells.len()
            invariant
                j <= cells@.len(),
                segments@.no_duplicates(),
                segments@.to_set() == before.union(cells@.take(j as int).to_set()),
                forall|k: int| 0 <= k < cells@.len() ==> norm(#[trigger] cells@[k]) <= total_len(wire@),
                forall|k: int|
                    0 <= k < segments@.len() ==> old(segments)@.contains(#[trigger] segments@[k])
                        || norm(segments@[k]) <= total_len(wire@),
            decreases cells.len() - j,
        {
            proof {
                assert(cells@.take(j as int + 1).to_set() =~= cells@.take(j as int).to_set().insert(cells@[j as int])) by {
                    assert(cells@.take(j as int + 1) =~= cells@.take(j as int).push(cells@[j as int]));
                    cells@.take(j as int).lemma_push_to_set_commute(cells@[j as int]);
                }
            }
            let ghost s0 = segments@;
            insert_unique(segments, cells[j]);
            proof {
                assert forall|k: int|
                    0 <= k < segments@.len() implies old(segments)@.contains(#[trigger] segments@[k])
                        || norm(segments@[k]) <= total_len(wire@) by {
                    if s0.contains(segments@[k]) {
                        let t = choose|t: int| 0 <= t < s0.len() && s0[t] == segments@[k];
                        assert(old(segments)@.contains(s0[t]) || norm(s0[t]) <= total_len(wire@));
                    }
                }
                assert(segments@.to_set() =~= before.union(cells@.take(j as int + 1).to_set()));
            }
            j = j + 1;
        }
        head = head.step(&wire[i]);
        proof {
            assert(cells@.take(j as int) =~= cells@);
            assert(path(next) == path(pre) + cells@);
            vstd::seq_lib::seq_to_set_distributes_over_add(path(pre), cells@);
            assert(segments@.to_set() =~= old(segments)@.to_set().union(path(next).to_set()));
        }
        i = i + 1;
    }
    assert(wire@.take(i as int) =~= wire@);
    head
}

/// How many distinct unit cells the wires pass, all of them starting at the origin.
pub fn solve_part_2(inputs: &Vec<Vec<Step>>) -> (r: usize)
    requires
        forall|i: int| 0 <= i < inputs@.len() ==> wire_ok((#[trigger] inputs@[i])@),
    ensures
        r == segment_set(inputs@).len(),
{
    let mut visited: Vec<Point> = Vec::new();
    let mut i: usize = 0;
    assert(visited@.to_set() =~= segment_set(inputs@.take(0)));
    while i < inputs.len()
        invariant
            forall|i: int| 0 <= i < inputs@.len() ==> wire_ok((#[trigger] inputs@[i])@),
            i <= inputs@.len(),
            visited@.no_duplicates(),
            visited@.to_set() == segment_set(inputs@.take(i as int)),
        decreases inputs.len() - i,
    {
        add_wire(&mut visited, &inputs[i]);
        proof {
            assert(inputs@.take(i as int + 1).drop_last() =~= inputs@.take(i as int));
        }
        i = i + 1;
    }
    assert(inputs@.take(i as int) =~= inputs@);
    proof {
        visited@.unique_seq_to_set();
    }
    visited.len()
}

/// Walking a wire a second time adds no cell: the set of cells stays as it was.
pub proof fn lemma_rewalk_idempotent(wires: Seq<Vec<Step>>, w: Vec<Step>)
    ensures
        segment_set(wires.push(w).push(w)) == segment_set(wires.push(w)),
{
    let once = wires.push(w);
    let twice = once.push(w);
    assert(twice.drop_last() =~= once);
    assert(once.drop_last() =~= wires);
    assert(segment_set(twice) =~= segment_set(once));
}

/// The six points one unit away from `p` along one axis.
pub open spec fn neighbours(p: Point) -> Seq<Point> {
    seq![
        Point { x: (p.x + 1) as i32, ..p },
        Point { x: (p.x - 1) as i32, ..p },
        Point { y: (p.y + 1) as i32, ..p },
        Point { y: (p.y - 1) as i32, ..p },
        Point { z: (p.z + 1) as i32, ..p },
        Point { z: (p.z - 1) as i32, ..p },
    ]
}

/// Every coordinate of `p` lies strictly inside the range of `i32`.
pub open spec fn inner(p: Point) -> bool {
    i32::MIN < p.x < i32::MAX && i32::MIN < p.y < i32::MAX && i32::MIN < p.z < i32::MAX
}

/// The six neighbours of `p`, in the order of `neighbours`.
fn neighbours_of(p: Point) -> (r: [Point; 6])
    requires
        inner(p),
    ensures
        r@ == neighbours(p),
{
    let r = [
        Point::new(p.x + 1, p.y, p.z),
        Point::new(p.x - 1, p.y, p.z),
        Point::new(p.x, p.y + 1, p.z),
        Point::new(p.x, p.y - 1, p.z),
        Point::new(p.x, p.y, p.z + 1),
        Point::new(p.x, p.y, p.z - 1),
    ];
    assert(r@ =~= neighbours(p));
    r
}

/// Every cell of `segments` next to a cell of `seen` is in `seen`.
pub open spec fn closed(segments: Seq<Point>, seen: Seq<Point>) -> bool {
    forall|i: int, k: int|
        0 <= i < seen.len() && 0 <= k < 6 && segments.contains(#[trigger] neighbours(seen[i])[k])
            ==> seen.contains(neighbours(seen[i])[k])
}

/// `p` is linked to `leaf` by a chain of `n` steps between neighbouring cells of `segments`.
pub open spec fn seg_reach(segments: Seq<Point>, leaf: Point, p: Point, n: nat) -> bool
    decreases n,
{
    if n == 0 {
        p == leaf
    } else {
        segments.contains(p) && exists|q: Point|
            #[trigger] neighbours(q).contains(p) && seg_reach(segments, leaf, q, (n - 1) as nat)
    }
}

/// A set of cells that holds `leaf` and is closed under stepping to neighbouring cells of
/// `segments` holds every cell that a chain links to `leaf`: together with `leaf_bfs` reaching
/// each cell once, its search reaches each reachable cell exactly once.
pub proof fn lemma_bfs_reaches_all(segments: Seq<Point>, leaf: Point, seen: Seq<Point>, p: Point, n: nat)
    requires
        seen.len() >= 1,
        seen[0] == leaf,
        closed(segments, seen),
        seg_reach(segments, leaf, p, n),
    ensures
        seen.contains(p),
    decreases n,
{
    if n == 0 {
        assert(seen[0] == p);
    } else {
        let q = choose|q: Point| #[trigger] neighbours(q).contains(p) && seg_reach(segments, leaf, q, (n - 1) as nat);
        lemma_bfs_reaches_all(segments, leaf, seen, q, (n - 1) as nat);
        let i = choose|i: int| 0 <= i < seen.len() && seen[i] == q;
        let k = choose|k: int| 0 <= k < neighbours(q).len() && neighbours(q)[k] == p;
        assert(segments.contains(neighbours(seen[i])[k]));
    }
}

/// `n` is the fewest steps by which a chain of neighbouring cells of `segments` links `p` to
/// `leaf`.
pub open spec fn is_seg_dist(segments: Seq<Point>, leaf: Point, p: Point, n: nat) -> bool {
    seg_reach(segments, leaf, p, n) && forall|k: nat| k < n ==> !#[trigger] seg_reach(segments, leaf, p, k)
}

/// The shortest distance from `leaf` to `p` through `segments`, or -1 when no chain links them.
pub open spec fn seg_dist(segments: Seq<Point>, leaf: Point, p: Point) -> int {
    if exists|n: nat| #[trigger] seg_reach(segments, leaf, p, n) {
        (choose|n: nat| is_seg_dist(segments, leaf, p, n)) as int
    } else {
        -1
    }
}

proof fn lemma_min_seg(segments: Seq<Point>, leaf: Point, p: Point, n: nat)
    requires
        seg_reach(segments, leaf, p, n),
    ensures
        exists|k: nat| k <= n && is_seg_dist(segments, leaf, p, k),
    decreases n,
{
    if exists|k: nat| k < n && #[trigger] seg_reach(segments, leaf, p, k) {
        let k = choose|k: nat| k < n && #[trigger] seg_reach(segments, leaf, p, k);
        lemma_min_seg(segments, leaf, p, k);
    } else {
        assert(is_seg_dist(segments, leaf, p, n));
    }
}

proof fn lemma_seg_dist(segments: Seq<Point>, leaf: Point, p: Point, n: nat)
    requires
        is_seg_dist(segments, leaf, p, n),
    ensures
        seg_dist(segments, leaf, p) == n,
{
    lemma_min_seg(segments, leaf, p, n);
    let k = choose|k: nat| is_seg_dist(segments, leaf, p, k);
    if k < n {
        assert(!seg_reach(segments, leaf, p, k));
    } else if n < k {
        assert(!seg_reach(segments, leaf, p, n));
    }
}

proof fn lemma_bfs_depth_bound(segments: Seq<Point>, leaf: Point, seen: Seq<Point>, dist: Seq<usize>, p: Point, n: nat)
    requires
        seen.len() == dist.len(),
        seen.len() >= 1,
        seen[0] == leaf,
        dist[0] == 0,
        forall|i: int, k: int|
            0 <= i < seen.len() && 0 <= k < 6 && segments.contains(#[trigger] neighbours(seen[i])[k])
                ==> exists|j: int| 0 <= j < seen.len() && seen[j] == neighbours(seen[i])[k] && dist[j] <= dist[i] + 1,
        seg_reach(segments, leaf, p, n),
    ensures
        exists|j: int| 0 <= j < seen.len() && seen[j] == p && dist[j] <= n,
    decreases n,
{
    if n == 0 {
        assert(seen[0] == p);
    } else {
        let q = choose|q: Point| #[trigger] neighbours(q).contains(p) && seg_reach(segments, leaf, q, (n - 1) as nat);
        lemma_bfs_depth_bound(segments, leaf, seen, dist, q, (n - 1) as nat);
        let i = choose|i: int| 0 <= i < seen.len() && seen[i] == q && dist[i] <= n - 1;
        let k = choose|k: int| 0 <= k < neighbours(q).len() && neighbours(q)[k] == p;
        assert(segments.contains(neighbours(seen[i])[k]));
        let j = choose|j: int| 0 <= j < seen.len() && seen[j] == neighbours(seen[i])[k] && dist[j] <= dist[i] + 1;
    }
}

/// Breadth-first search from `leaf` over the cells of `segments`, two cells being linked when
/// they are one unit apart along one axis. Returns the cells reached, each once, in the order
/// they are reached, with the depth of each; the cells reached hold every cell of `segments`
/// next to one of them, and each depth is one more than that of an earlier neighbour.
pub fn leaf_bfs(segments: &Vec<Point>, leaf: Point) -> (r: (Vec<Point>, Vec<usize>))
    requires
        inner(leaf),
        forall|i: int| 0 <= i < segments@.len() ==> inner(#[trigger] segments@[i]),
    ensures
        r.0@.len() == r.1@.len(),
        1 <= r.0@.len() <= segments@.len() + 1,
        forall|i: int| 0 <= i < r.1@.len() ==> #[trigger] r.1@[i] <= i,
        r.0@[0] == leaf,
        r.1@[0] == 0,
        r.0@.no_duplicates(),
        forall|i: int| 1 <= i < r.0@.len() ==> segments@.contains(#[trigger] r.0@[i]),
        forall|i: int|
            1 <= i < r.0@.len() ==> exists|j: int|
                0 <= j < i && #[trigger] r.1@[i] == r.1@[j] + 1 && neighbours(r.0@[j]).contains(
                    r.0@[i],
                ),
        closed(segments@, r.0@),
        forall|i: int| 0 <= i < r.0@.len() ==> #[trigger] r.1@[i] == seg_dist(segments@, leaf, r.0@[i]),
{
    let ghost bound = segments@.to_set().insert(leaf);
    proof {
        segments@.lemma_cardinality_of_set();
        vstd::seq_lib::seq_to_set_is_finite(segments@);
    }
    let mut seen: Vec<Point> = Vec::new();
    let mut dist: Vec<usize> = Vec::new();
    seen.push(leaf);
    dist.push(0);
    let mut head: usize = 0;
    while head < seen.len()
        invariant
            bound == segments@.to_set().insert(leaf),
            bound.finite(),
            bound.len() <= segments@.len() + 1,
            forall|i: int| 0 <= i < segments@.len() ==> inner(#[trigger] segments@[i]),
            inner(leaf),
            seen@.len() == dist@.len(),
            1 <= seen@.len() <= segments@.len() + 1,
            head <= seen@.len(),
            seen@[0] == leaf,
            dist@[0] == 0,
            seen@.no_duplicates(),
            seen@.to_set().subset_of(bound),
            forall|i: int| 1 <= i < seen@.len() ==> segments@.contains(#[trigger] seen@[i]),
            forall|i: int| 0 <= i < seen@.len() ==> #[trigger] dist@[i] <= i,
            forall|i: int|
                1 <= i < seen@.len() ==> exists|j: int|
                    0 <= j < i && #[trigger] dist@[i] == dist@[j] + 1 && neighbours(seen@[j]).contains(
                        seen@[i],
                    ),
            forall|i: int, k: int|
                0 <= i < head && 0 <= k < 6 && segments@.contains(#[trigger] neighbours(seen@[i])[k])
                    ==> exists|j: int| 0 <= j < seen@.len() && seen@[j] == neighbours(seen@[i])[k] && dist@[j] <= dist@[i] + 1,
            forall|i: int| 0 <= i < seen@.len() ==> seg_reach(segments@, leaf, #[trigger] seen@[i], dist@[i] as nat),
            forall|i: int, j: int| 0 <= i <= j < seen@.len() ==> #[trigger] dist@[i] <= #[trigger] dist@[j],
            forall|i: int| 0 <= i < seen@.len() ==> #[trigger] dist@[i] <= (if head > 0 { dist@[head - 1] + 1 } else { 0 }),
        decreases 2 * (segments@.len() + 1 - seen@.len()) + seen@.len() - head,
    {
        proof {
            seen@.unique_seq_to_set();
            vstd::set_lib::lemma_len_subset(seen@.to_set(), bound);
        }
        let segment = seen[head];
        let distance = dist[head];
        proof {
            if head > 0 {
                assert(segments@.contains(seen@[head as int]));
                assert(dist@[head - 1] <= dist@[head as int]);
            }
        }
        let nexts = neighbours_of(segment);
        let ghost popped = head as int;
        let ghost len0 = seen@.len();
        head = head + 1;
        let mut k: usize = 0;
        while k < 6
            invariant
                bound == segments@.to_set().insert(leaf),
                bound.finite(),
                bound.len() <= segments@.len() + 1,
                forall|i: int| 0 <= i < segments@.len() ==> inner(#[trigger] segments@[i]),
                inner(leaf),
                popped == head - 1,
                0 <= popped < seen@.len(),
                len0 <= seen@.len() <= segments@.len() + 1,
                seen@[popped] == segment,
                dist@[popped] == distance,
                nexts@ == neighbours(segment),
                k <= 6,
                seen@.len() == dist@.len(),
                1 <= seen@.len(),
                head <= seen@.len(),
                seen@[0] == leaf,
                dist@[0] == 0,
                seen@.no_duplicates(),
                seen@.to_set().subset_of(bound),
                forall|i: int| 1 <= i < seen@.len() ==> segments@.contains(#[trigger] seen@[i]),
                forall|i: int| 0 <= i < seen@.len() ==> #[trigger] dist@[i] <= i,
                forall|i: int|
                    1 <= i < seen@.len() ==> exists|j: int|
                        0 <= j < i && #[trigger] dist@[i] == dist@[j] + 1 && neighbours(
                            seen@[j],
                        ).contains(seen@[i]),
                forall|i: int, kk: int|
                    0 <= i < popped && 0 <= kk < 6 && segments@.contains(
                        #[trigger] neighbours(seen@[i])[kk],
                    ) ==> exists|j: int| 0 <= j < seen@.len() && seen@[j] == neighbours(seen@[i])[kk] && dist@[j] <= dist@[i] + 1,
                forall|kk: int|
                    0 <= kk < k && segments@.contains(#[trigger] neighbours(segment)[kk])
                        ==> exists|j: int| 0 <= j < seen@.len() && seen@[j] == neighbours(segment)[kk] && dist@[j] <= distance + 1,
                forall|i: int| 0 <= i < seen@.len() ==> seg_reach(segments@, leaf, #[trigger] seen@[i], dist@[i] as nat),
                forall|i: int, j: int| 0 <= i <= j < seen@.len() ==> #[trigger] dist@[i] <= #[trigger] dist@[j],
                forall|i: int| 0 <= i < seen@.len() ==> #[trigger] dist@[i] <= distance + 1,
            decreases 6 - k,
        {
            let next = nexts[k];
            if contains(segments, next) && !contains(&seen, next) {
                let ghost s0 = seen@;
                let ghost d0 = dist@;
                proof {
                    s0.unique_seq_to_set();
                    assert(s0.to_set().insert(next).subset_of(bound));
                    assert(!s0.to_set().contains(next));
                    assert(s0.to_set().insert(next).len() == s0.len() + 1);
                    assert(distance <= popped);
                    vstd::set_lib::lemma_len_subset(s0.to_set().insert(next), bound);
                    assert(neighbours(segment).contains(next)) by {
                        assert(neighbours(segment)[k as int] == next);
                    }
                }
                seen.push(next);
                dist.push(distance + 1);
                proof {
                    assert(seg_reach(segments@, leaf, segment, distance as nat));
                    assert(seg_reach(segments@, leaf, next, (distance + 1) as nat));
                    assert forall|i: int| 0 <= i < seen@.len() implies seg_reach(segments@, leaf, #[trigger] seen@[i], dist@[i] as nat) by {
                        if i < s0.len() {
                            assert(seen@[i] == s0[i] && dist@[i] == d0[i]);
                        }
                    }
                    assert forall|i: int, j: int| 0 <= i <= j < seen@.len() implies #[trigger] dist@[i] <= #[trigger] dist@[j] by {
                        if j < s0.len() {
                            assert(dist@[i] == d0[i] && dist@[j] == d0[j]);
                        } else if i < s0.len() {
                            assert(dist@[i] == d0[i]);
                        }
                    }
                    assert forall|i: int| 0 <= i < seen@.len() implies #[trigger] dist@[i] <= distance + 1 by {
                        if i < s0.len() {
                            assert(dist@[i] == d0[i]);
                        }
                    }
                    assert forall|i: int, kk: int|
                        0 <= i < popped && 0 <= kk < 6 && segments@.contains(#[trigger] neighbours(seen@[i])[kk])
                            implies exists|j: int| 0 <= j < seen@.len() && seen@[j] == neighbours(seen@[i])[kk] && dist@[j] <= dist@[i] + 1 by {
                        assert(seen@[i] == s0[i] && dist@[i] == d0[i]);
                        let j = choose|j: int| 0 <= j < s0.len() && s0[j] == neighbours(s0[i])[kk] && d0[j] <= d0[i] + 1;
                        assert(seen@[j] == s0[j] && dist@[j] == d0[j]);
                    }
                    assert forall|kk: int|
                        0 <= kk < k + 1 && segments@.contains(#[trigger] neighbours(segment)[kk])
                            implies exists|j: int| 0 <= j < seen@.len() && seen@[j] == neighbours(segment)[kk] && dist@[j] <= distance + 1 by {
                        if kk < k {
                            let j = choose|j: int| 0 <= j < s0.len() && s0[j] == neighbours(segment)[kk] && d0[j] <= distance + 1;
                            assert(seen@[j] == s0[j] && dist@[j] == d0[j]);
                        } else {
                            assert(seen@[s0.len() as int] == neighbours(segment)[kk]);
                        }
                    }
                    s0.lemma_push_to_set_commute(next);
                    assert forall|q: Point| s0.contains(q) implies seen@.contains(q) by {
                        let i = choose|i: int| 0 <= i < s0.len() && s0[i] == q;
                        assert(seen@[i] == q);
                    }
                    assert(seen@[s0.len() as int] == next);
                    assert(seen@.contains(next));
                    assert forall|i: int| 1 <= i < seen@.len() implies exists|j: int|
                        0 <= j < i && #[trigger] dist@[i] == dist@[j] + 1 && neighbours(
                            seen@[j],
                        ).contains(seen@[i]) by {
                        if i == s0.len() {
                            assert(dist@[i] == dist@[popped] + 1);
                        } else {
                            assert(seen@[i] == s0[i] && dist@[i] == d0[i]);
                            let j = choose|j: int|
                                0 <= j < i && #[trigger] d0[i] == d0[j] + 1 && neighbours(
                                    s0[j],
                                ).contains(s0[i]);
                            assert(seen@[j] == s0[j] && dist@[j] == d0[j]);
                        }
                    }
                }
            } else {
                proof {
                    if segments@.contains(next) {
                        assert(seen@.contains(next));
                        let j = choose|j: int| 0 <= j < seen@.len() && seen@[j] == next;
                        assert(dist@[j] <= distance + 1);
                        assert(neighbours(segment)[k as int] == next);
                    }
                }
            }
            k = k + 1;
        }
    }
    proof {
        assert forall|i: int| 0 <= i < seen@.len() implies #[trigger] dist@[i] == seg_dist(segments@, leaf, seen@[i]) by {
            let n = dist@[i] as nat;
            assert forall|kk: nat| kk < n implies !#[trigger] seg_reach(segments@, leaf, seen@[i], kk) by {
                if seg_reach(segments@, leaf, seen@[i], kk) {
                    lemma_bfs_depth_bound(segments@, leaf, seen@, dist@, seen@[i], kk);
                    let j = choose|j: int| 0 <= j < seen@.len() && seen@[j] == seen@[i] && dist@[j] <= kk;
                }
            }
            lemma_seg_dist(segments@, leaf, seen@[i], n);
        }
        assert forall|i: int, k: int|
            0 <= i < seen@.len() && 0 <= k < 6 && segments@.contains(#[trigger] neighbours(seen@[i])[k])
                implies seen@.contains(neighbours(seen@[i])[k]) by {
            let j = choose|j: int| 0 <= j < seen@.len() && seen@[j] == neighbours(seen@[i])[k] && dist@[j] <= dist@[i] + 1;
        }
    }
    (seen, dist)
}

/// A cell on the line x = 0, z = 0.
pub open spec fn on_axis(p: Point) -> bool {
    p.x == 0 && p.z == 0
}

/// The product of `a` and `b`, kept apart so that loop proofs need not reason about it.
#[verifier::opaque]
pub open spec fn times(a: int, b: int) -> int {
    a * b
}

proof fn lemma_times_le(a: int, n: int, b: int)
    requires
        0 <= a <= n,
        0 <= b,
    ensures
        times(a, b) <= times(n, b),
        times(0, b) == 0,
{
    reveal(times);
    assert(a * b <= n * b) by (nonlinear_arith)
        requires
            0 <= a <= n,
            0 <= b,
    ;
}

proof fn lemma_times_step(a: int, n: int, b: int)
    requires
        0 <= a < n,
        0 <= b,
    ensures
        times(a, b) + b == times(a + 1, b),
        times(a + 1, b) <= times(n, b),
{
    reveal(times);
    assert(a * b + b == (a + 1) * b) by (nonlinear_arith);
    lemma_times_le(a + 1, n, b);
}

/// `murk` has an entry for `p`.
pub open spec fn has_key(murk: Seq<(Point, usize)>, p: Point) -> bool {
    exists|t: int| 0 <= t < murk.len() && (#[trigger] murk[t]).0 == p
}

/// No two entries of `murk` are for the same cell.
pub open spec fn keys_unique(murk: Seq<(Point, usize)>) -> bool {
    forall|s: int, t: int| 0 <= s < t < murk.len() ==> (#[trigger] murk[s]).0 != (#[trigger] murk[t]).0
}

/// The total that `murk` holds for `p`, zero when it has no entry.
pub open spec fn mval(murk: Seq<(Point, usize)>, p: Point) -> int {
    if has_key(murk, p) {
        murk[choose|t: int| 0 <= t < murk.len() && (#[trigger] murk[t]).0 == p].1 as int
    } else {
        0
    }
}

proof fn lemma_mval(murk: Seq<(Point, usize)>, t: int)
    requires
        keys_unique(murk),
        0 <= t < murk.len(),
    ensures
        has_key(murk, murk[t].0),
        mval(murk, murk[t].0) == murk[t].1,
{
    let p = murk[t].0;
    assert(murk[t].0 == p);
    let u = choose|u: int| 0 <= u < murk.len() && (#[trigger] murk[u]).0 == p;
    if u < t {
        assert(murk[u].0 != murk[t].0);
    } else if t < u {
        assert(murk[t].0 != murk[u].0);
    }
}

/// The depth that `dist` gives for `p`, `p` being in `seen`.
pub open spec fn depth_in(seen: Seq<Point>, dist: Seq<usize>, p: Point) -> int {
    dist[choose|i: int| 0 <= i < seen.len() && seen[i] == p] as int
}

proof fn lemma_depth_in(seen: Seq<Point>, dist: Seq<usize>, i: int)
    requires
        seen.no_duplicates(),
        0 <= i < seen.len(),
    ensures
        depth_in(seen, dist, seen[i]) == dist[i],
{
    let u = choose|u: int| 0 <= u < seen.len() && seen[u] == seen[i];
    assert(u == i);
}

/// Adds depth `d` to the entry of `p` in `murk`, or makes one.
fn accumulate(murk: &mut Vec<(Point, usize)>, p: Point, d: usize)
    requires
        keys_unique(old(murk)@),
        mval(old(murk)@, p) + d <= usize::MAX,
    ensures
        keys_unique(final(murk)@),
        forall|q: Point| #[trigger] has_key(final(murk)@, q) <==> has_key(old(murk)@, q) || q == p,
        forall|q: Point| #[trigger] mval(final(murk)@, q) == mval(old(murk)@, q) + if q == p { d as int } else { 0 },
{
    let ghost m0 = murk@;
    let mut t: usize = 0;
    while t < murk.len()
        invariant
            t <= murk@.len(),
            murk@ == m0,
            m0 == old(murk)@,
            keys_unique(m0),
            mval(m0, p) + d <= usize::MAX,
            forall|u: int| 0 <= u < t ==> (#[trigger] murk@[u]).0 != p,
        decreases murk.len() - t,
    {
        if murk[t].0 == p {
            proof {
                lemma_mval(m0, t as int);
            }
            let v = murk[t].1 + d;
            murk.set(t, (p, v));
            proof {
                assert forall|q: Point| #[trigger] has_key(murk@, q) <==> has_key(m0, q) || q == p by {
                    if has_key(murk@, q) {
                        let u = choose|u: int| 0 <= u < murk@.len() && (#[trigger] murk@[u]).0 == q;
                        assert(m0[u].0 == q);
                    }
                    if has_key(m0, q) {
                        let u = choose|u: int| 0 <= u < m0.len() && (#[trigger] m0[u]).0 == q;
                        assert(murk@[u].0 == q);
                    }
                    if q == p {
                        assert(murk@[t as int].0 == q);
                    }
                }
                assert forall|q: Point| #[trigger] mval(murk@, q) == mval(m0, q) + if q == p { d as int } else { 0 } by {
                    if has_key(m0, q) {
                        let u = choose|u: int| 0 <= u < m0.len() && (#[trigger] m0[u]).0 == q;
                        lemma_mval(m0, u);
                        lemma_mval(murk@, u);
                    }
                }
            }
            return;
        }
        t = t + 1;
    }
    murk.push((p, d));
    proof {
        assert(!has_key(m0, p));
        assert forall|q: Point| #[trigger] has_key(murk@, q) <==> has_key(m0, q) || q == p by {
            if has_key(murk@, q) {
                let u = choose|u: int| 0 <= u < murk@.len() && (#[trigger] murk@[u]).0 == q;
                if u < m0.len() {
                    assert(m0[u].0 == q);
                }
            }
            if has_key(m0, q) {
                let u = choose|u: int| 0 <= u < m0.len() && (#[trigger] m0[u]).0 == q;
                assert(murk@[u].0 == q);
            }
            if q == p {
                assert(murk@[m0.len() as int].0 == q);
            }
        }
        assert forall|q: Point| #[trigger] mval(murk@, q) == mval(m0, q) + if q == p { d as int } else { 0 } by {
            if q == p {
                lemma_mval(murk@, m0.len() as int);
            } else if has_key(m0, q) {
                let u = choose|u: int| 0 <= u < m0.len() && (#[trigger] m0[u]).0 == q;
                lemma_mval(m0, u);
                lemma_mval(murk@, u);
            }
        }
    }
}

/// Adds, for each cell of `seen` on the line x = 0, z = 0, its depth to that cell's total in
/// `murk`. Each cell of `seen` appears once, so no total grows by more than `bound`.
fn add_depths(murk: &mut Vec<(Point, usize)>, seen: &Vec<Point>, dist: &Vec<usize>, budget: usize, bound: usize)
    requires
        seen@.len() == dist@.len(),
        seen@.no_duplicates(),
        forall|k: int| 0 <= k < seen@.len() ==> #[trigger] dist@[k] <= bound,
        budget + bound <= usize::MAX,
        keys_unique(old(murk)@),
        forall|q: Point| #[trigger] mval(old(murk)@, q) <= budget,
    ensures
        keys_unique(final(murk)@),
        forall|q: Point|
            #[trigger] has_key(final(murk)@, q) <==> has_key(old(murk)@, q) || (on_axis(q) && seen@.contains(q)),
        forall|q: Point|
            #[trigger] mval(final(murk)@, q) == mval(old(murk)@, q) + if on_axis(q) && seen@.contains(q) {
                depth_in(seen@, dist@, q)
            } else {
                0
            },
        forall|q: Point| #[trigger] mval(final(murk)@, q) <= budget + bound,
{
    let ghost m_start = murk@;
    let mut j: usize = 0;
    while j < seen.len()
        invariant
            seen@.len() == dist@.len(),
            seen@.no_duplicates(),
            forall|k: int| 0 <= k < seen@.len() ==> #[trigger] dist@[k] <= bound,
            budget + bound <= usize::MAX,
            j <= seen@.len(),
            m_start == old(murk)@,
            forall|q: Point| #[trigger] mval(m_start, q) <= budget,
            keys_unique(murk@),
            forall|q: Point|
                #[trigger] has_key(murk@, q) <==> has_key(m_start, q) || (on_axis(q) && seen@.take(j as int).contains(q)),
            forall|q: Point|
                #[trigger] mval(murk@, q) == mval(m_start, q) + if on_axis(q) && seen@.take(j as int).contains(q) {
                    depth_in(seen@, dist@, q)
                } else {
                    0
                },
        decreases seen.len() - j,
    {
        let p = seen[j];
        let d = dist[j];
        let ghost m0 = murk@;
        proof {
            lemma_depth_in(seen@, dist@, j as int);
            assert(!seen@.take(j as int).contains(p));
            assert forall|q: Point| #[trigger] seen@.take(j as int + 1).contains(q) <==> seen@.take(j as int).contains(q) || q == p by {
                if seen@.take(j as int).contains(q) {
                    let k = choose|k: int| 0 <= k < j && #[trigger] seen@.take(j as int)[k] == q;
                    assert(seen@.take(j as int + 1)[k] == q);
                }
                if seen@.take(j as int + 1).contains(q) {
                    let k = choose|k: int| 0 <= k < j + 1 && #[trigger] seen@.take(j as int + 1)[k] == q;
                    if k < j {
                        assert(seen@.take(j as int)[k] == q);
                    }
                }
                if q == p {
                    assert(seen@.take(j as int + 1)[j as int] == q);
                }
            }
        }
        if p.x == 0 && p.z == 0 {
            proof {
                assert(mval(m0, p) == mval(m_start, p));
            }
            accumulate(murk, p, d);
        }
        j = j + 1;
    }
    proof {
        assert(seen@.take(j as int) =~= seen@);
        assert forall|q: Point| #[trigger] mval(murk@, q) <= budget + bound by {
            if on_axis(q) && seen@.contains(q) {
                let k = choose|k: int| 0 <= k < seen@.len() && seen@[k] == q;
                lemma_depth_in(seen@, dist@, k);
            }
        }
    }
}

/// Runs the search from `leaf` and adds its depths on the line x = 0, z = 0 to `murk`.
fn add_leaf(murk: &mut Vec<(Point, usize)>, segments: &Vec<Point>, leaf: Point, budget: usize, bound: usize)
    requires
        inner(leaf),
        forall|k: int| 0 <= k < segments@.len() ==> inner(#[trigger] segments@[k]),
        bound == segments@.len(),
        budget + bound <= usize::MAX,
        keys_unique(old(murk)@),
        forall|q: Point| #[trigger] mval(old(murk)@, q) <= budget,
    ensures
        keys_unique(final(murk)@),
        forall|q: Point|
            #[trigger] has_key(final(murk)@, q) <==> has_key(old(murk)@, q) || (on_axis(q) && seg_dist(segments@, leaf, q) >= 0),
        forall|q: Point|
            #[trigger] mval(final(murk)@, q) == mval(old(murk)@, q) + if on_axis(q) && seg_dist(segments@, leaf, q) >= 0 {
                seg_dist(segments@, leaf, q)
            } else {
                0
            },
        forall|q: Point| #[trigger] mval(final(murk)@, q) <= budget + bound,
{
    let (seen, dist) = leaf_bfs(segments, leaf);
    proof {
        assert forall|k: int| 0 <= k < dist@.len() implies #[trigger] dist@[k] <= bound by {}
        assert forall|q: Point| seen@.contains(q) <==> #[trigger] seg_dist(segments@, leaf, q) >= 0 by {
            if seen@.contains(q) {
                let k = choose|k: int| 0 <= k < seen@.len() && seen@[k] == q;
                assert(dist@[k] == seg_dist(segments@, leaf, seen@[k]));
            }
            if seg_dist(segments@, leaf, q) >= 0 {
                let n = choose|n: nat| #[trigger] seg_reach(segments@, leaf, q, n);
                lemma_bfs_reaches_all(segments@, leaf, seen@, q, n);
            }
        }
        assert forall|q: Point| seen@.contains(q) implies #[trigger] depth_in(seen@, dist@, q) == seg_dist(segments@, leaf, q) by {
            let k = choose|k: int| 0 <= k < seen@.len() && seen@[k] == q;
            lemma_depth_in(seen@, dist@, k);
            assert(dist@[k] == seg_dist(segments@, leaf, seen@[k]));
        }
    }
    add_depths(murk, &seen, &dist, budget, bound);
}

/// Whether one of `leaves` is linked to `p` through `segments`.
pub open spec fn reached(segments: Seq<Point>, leaves: Seq<Point>, p: Point) -> bool {
    exists|i: int| 0 <= i < leaves.len() && seg_dist(segments, #[trigger] leaves[i], p) >= 0
}

/// The murkiness of `p`: the sum, over `leaves`, of the shortest distance from each leaf that is
/// linked to `p` through `segments`.
pub open spec fn murk_of(segments: Seq<Point>, leaves: Seq<Point>, p: Point) -> int
    decreases leaves.len(),
{
    if leaves.len() == 0 {
        0
    } else {
        murk_of(segments, leaves.drop_last(), p) + if seg_dist(segments, leaves.last(), p) >= 0 {
            seg_dist(segments, leaves.last(), p)
        } else {
            0
        }
    }
}

/// `r` is the least murkiness over the cells of the line x = 0, z = 0 that some leaf reaches, or
/// `None` when no leaf reaches such a cell.
pub open spec fn least_murk(segments: Seq<Point>, leaves: Seq<Point>, r: Option<usize>) -> bool {
    match r {
        None => forall|p: Point| on_axis(p) ==> !#[trigger] reached(segments, leaves, p),
        Some(v) => (exists|p: Point| on_axis(p) && #[trigger] reached(segments, leaves, p) && murk_of(segments, leaves, p) == v)
            && forall|p: Point| on_axis(p) && #[trigger] reached(segments, leaves, p) ==> v <= murk_of(segments, leaves, p),
    }
}

/// `segs` holds the cells of the wires and `leaves` each distinct wire end once.
pub open spec fn wire_cells(wires: Seq<Vec<Step>>, segs: Seq<Point>, leaves: Seq<Point>) -> bool {
    &&& segs.to_set() == segment_set(wires)
    &&& leaves.no_duplicates()
    &&& forall|p: Point| #[trigger] leaves.contains(p) <==> exists|w: int| 0 <= w < wires.len() && end_of(wires[w]@) == p
}

/// The least murkiness over the cells on the line x = 0, z = 0: for each distinct wire end, a
/// breadth-first search over all the cells of the wires adds the depth at which it reaches such a
/// cell to that cell's total. `None` when no search reaches such a cell.
pub fn solve_part_3(inputs: &Vec<Vec<Step>>) -> (r: Option<usize>)
    requires
        forall|i: int|
            0 <= i < inputs@.len() ==> wire_ok((#[trigger] inputs@[i])@) && total_len(inputs@[i]@) < i32::MAX,
        inputs@.len() * segment_set(inputs@).len() <= usize::MAX,
    ensures
        exists|segs: Seq<Point>, leaves: Seq<Point>|
            #[trigger] wire_cells(inputs@, segs, leaves) && least_murk(segs, leaves, r),
{
    let mut segments: Vec<Point> = Vec::new();
    let mut leaves: Vec<Point> = Vec::new();
    let mut i: usize = 0;
    assert(segments@.to_set() =~= segment_set(inputs@.take(0)));
    while i < inputs.len()
        invariant
            forall|i: int|
                0 <= i < inputs@.len() ==> wire_ok((#[trigger] inputs@[i])@) && total_len(inputs@[i]@) < i32::MAX,
            i <= inputs@.len(),
            segments@.no_duplicates(),
            segments@.to_set() == segment_set(inputs@.take(i as int)),
            forall|k: int| 0 <= k < segments@.len() ==> inner(#[trigger] segments@[k]),
            leaves@.no_duplicates(),
            leaves@.len() <= i,
            forall|k: int| 0 <= k < leaves@.len() ==> inner(#[trigger] leaves@[k]),
            forall|k: int| 0 <= k < leaves@.len() ==> exists|w: int| 0 <= w < i && #[trigger] leaves@[k] == end_of(inputs@[w]@),
            forall|w: int| 0 <= w < i ==> leaves@.contains(#[trigger] end_of(inputs@[w]@)),
        decreases inputs.len() - i,
    {
        let ghost s0 = segments@;
        let ghost l0 = leaves@;
        let head = add_wire(&mut segments, &inputs[i]);
        proof {
            lemma_end_bound(inputs@[i as int]@);
            assert(inputs@.take(i as int + 1).drop_last() =~= inputs@.take(i as int));
            assert forall|k: int| 0 <= k < segments@.len() implies inner(#[trigger] segments@[k]) by {
                if s0.contains(segments@[k]) {
                    let t = choose|t: int| 0 <= t < s0.len() && s0[t] == segments@[k];
                    assert(inner(s0[t]));
                }
            }
        }
        insert_unique(&mut leaves, head);
        proof {
            assert forall|k: int| 0 <= k < leaves@.len() implies inner(#[trigger] leaves@[k]) && exists|w: int| 0 <= w < i + 1 && leaves@[k] == end_of(inputs@[w]@) by {
                if l0.contains(leaves@[k]) {
                    let t = choose|t: int| 0 <= t < l0.len() && l0[t] == leaves@[k];
                    assert(inner(l0[t]));
                    let w = choose|w: int| 0 <= w < i && #[trigger] l0[t] == end_of(inputs@[w]@);
                } else {
                    assert(leaves@[k] == end_of(inputs@[i as int]@));
                }
            }
            assert forall|w: int| 0 <= w < i + 1 implies leaves@.contains(#[trigger] end_of(inputs@[w]@)) by {
                assert(leaves@.to_set().contains(end_of(inputs@[w]@)));
            }
        }
        i = i + 1;
    }
    proof {
        assert(inputs@.take(i as int) =~= inputs@);
        segments@.unique_seq_to_set();
    }
    let bound = segments.len();
    proof {
        reveal(times);
        assert(times(inputs@.len() as int, bound as int) <= usize::MAX);
        lemma_times_le(leaves@.len() as int, inputs@.len() as int, bound as int);
        lemma_times_le(0, leaves@.len() as int, bound as int);
    }
    let mut murk: Vec<(Point, usize)> = Vec::new();
    let mut budget: usize = 0;
    let mut l: usize = 0;
    proof {
        assert forall|p: Point| #[trigger] leaves@.contains(p) <==> exists|w: int| 0 <= w < inputs@.len() && end_of(inputs@[w]@) == p by {
            if leaves@.contains(p) {
                let k = choose|k: int| 0 <= k < leaves@.len() && leaves@[k] == p;
                assert(exists|w: int| 0 <= w < i && #[trigger] leaves@[k] == end_of(inputs@[w]@));
            }
            if exists|w: int| 0 <= w < inputs@.len() && end_of(inputs@[w]@) == p {
                let w = choose|w: int| 0 <= w < inputs@.len() && end_of(inputs@[w]@) == p;
                assert(leaves@.contains(end_of(inputs@[w]@)));
            }
        }
        assert(wire_cells(inputs@, segments@, leaves@));
        assert(leaves@.take(0) =~= Seq::<Point>::empty());
    }
    while l < leaves.len()
        invariant
            forall|k: int| 0 <= k < segments@.len() ==> inner(#[trigger] segments@[k]),
            forall|k: int| 0 <= k < leaves@.len() ==> inner(#[trigger] leaves@[k]),
            wire_cells(inputs@, segments@, leaves@),
            bound == segments@.len(),
            l <= leaves@.len(),
            budget == times(l as int, bound as int),
            times(l as int, bound as int) <= times(leaves@.len() as int, bound as int),
            times(leaves@.len() as int, bound as int) <= usize::MAX,
            keys_unique(murk@),
            forall|q: Point| #[trigger] mval(murk@, q) <= budget,
            forall|q: Point| #[trigger] has_key(murk@, q) <==> on_axis(q) && reached(segments@, leaves@.take(l as int), q),
            forall|q: Point|
                #[trigger] mval(murk@, q) == if on_axis(q) { murk_of(segments@, leaves@.take(l as int), q) } else { 0 },
        decreases leaves.len() - l,
    {
        let leaf = leaves[l];
        proof {
            lemma_times_step(l as int, leaves@.len() as int, bound as int);
        }
        let ghost m0 = murk@;
        add_leaf(&mut murk, &segments, leaf, budget, bound);
        proof {
            let pre = leaves@.take(l as int);
            let nxt = leaves@.take(l as int + 1);
            assert(nxt.drop_last() =~= pre);
            assert(nxt.last() == leaf);
            assert forall|q: Point| #[trigger] reached(segments@, nxt, q) <==> reached(segments@, pre, q) || seg_dist(segments@, leaf, q) >= 0 by {
                if reached(segments@, nxt, q) {
                    let k = choose|k: int| 0 <= k < nxt.len() && seg_dist(segments@, #[trigger] nxt[k], q) >= 0;
                    if k < l {
                        assert(pre[k] == nxt[k]);
                    }
                }
                if reached(segments@, pre, q) {
                    let k = choose|k: int| 0 <= k < pre.len() && seg_dist(segments@, #[trigger] pre[k], q) >= 0;
                    assert(nxt[k] == pre[k]);
                }
                if seg_dist(segments@, leaf, q) >= 0 {
                    assert(nxt[l as int] == leaf);
                }
            }
        }
        budget = budget + bound;
        l = l + 1;
    }
    proof {
        assert(leaves@.take(l as int) =~= leaves@);
    }
    if murk.len() == 0 {
        proof {
            assert forall|p: Point| on_axis(p) implies !#[trigger] reached(segments@, leaves@, p) by {
                if reached(segments@, leaves@, p) {
                    assert(has_key(murk@, p));
                }
            }
            assert(least_murk(segments@, leaves@, None));
        }
        return None;
    }
    let mut best = murk[0].1;
    let mut bi: usize = 0;
    let mut t: usize = 1;
    while t < murk.len()
        invariant
            1 <= t <= murk@.len(),
            bi < murk@.len(),
            best == murk@[bi as int].1,
            forall|u: int| 0 <= u < t ==> best <= (#[trigger] murk@[u]).1,
        decreases murk.len() - t,
    {
        if murk[t].1 < best {
            best = murk[t].1;
            bi = t;
        }
        t = t + 1;
    }
    proof {
        let p0 = murk@[bi as int].0;
        lemma_mval(murk@, bi as int);
        assert(on_axis(p0) && reached(segments@, leaves@, p0) && murk_of(segments@, leaves@, p0) == best);
        assert forall|p: Point| on_axis(p) && #[trigger] reached(segments@, leaves@, p) implies best <= murk_of(segments@, leaves@, p) by {
            assert(has_key(murk@, p));
            let u = choose|u: int| 0 <= u < murk@.len() && (#[trigger] murk@[u]).0 == p;
            lemma_mval(murk@, u);
        }
        assert(least_murk(segments@, leaves@, Some(best)));
    }
    Some(best)
}

proof fn lemma_wire_in_set(wires: Seq<Vec<Step>>, i: int)
    requires
        0 <= i < wires.len(),
    ensures
        path(wires[i]@).to_set().subset_of(segment_set(wires)),
    decreases wires.len(),
{
    if i < wires.len() - 1 {
        assert(wires.drop_last()[i] == wires[i]);
        lemma_wire_in_set(wires.drop_last(), i);
    }
}

/// Adding a copy of one of the wires changes neither the cells nor the set of wire ends, so any
/// description of the cells and ends that `solve_part_3` answers for stays one for the longer
/// list.
pub proof fn lemma_duplicate_wire(wires: Seq<Vec<Step>>, i: int, segs: Seq<Point>, leaves: Seq<Point>)
    requires
        0 <= i < wires.len(),
        wire_cells(wires, segs, leaves),
    ensures
        wire_cells(wires.push(wires[i]), segs, leaves),
{
    let w2 = wires.push(wires[i]);
    assert(w2.drop_last() =~= wires);
    lemma_wire_in_set(wires, i);
    assert(segment_set(w2) =~= segment_set(wires));
    assert forall|p: Point| #[trigger] leaves.contains(p) <==> exists|w: int| 0 <= w < w2.len() && end_of(w2[w]@) == p by {
        if exists|w: int| 0 <= w < w2.len() && end_of(w2[w]@) == p {
            let w = choose|w: int| 0 <= w < w2.len() && end_of(w2[w]@) == p;
            if w == wires.len() {
                assert(end_of(wires[i]@) == p);
            } else {
                assert(w2[w] == wires[w]);
            }
        }
        if leaves.contains(p) {
            let w = choose|w: int| 0 <= w < wires.len() && end_of(wires[w]@) == p;
            assert(w2[w] == wires[w]);
        }
    }
}

proof fn lemma_seg_reach_same(s1: Seq<Point>, s2: Seq<Point>, leaf: Point, p: Point, n: nat)
    requires
        s1.to_set() == s2.to_set(),
    ensures
        seg_reach(s1, leaf, p, n) == seg_reach(s2, leaf, p, n),
    decreases n,
{
    if n > 0 {
        assert(s1.contains(p) == s1.to_set().contains(p));
        assert(s2.contains(p) == s2.to_set().contains(p));
        if seg_reach(s1, leaf, p, n) {
            let q = choose|q: Point| #[trigger] neighbours(q).contains(p) && seg_reach(s1, leaf, q, (n - 1) as nat);
            lemma_seg_reach_same(s1, s2, leaf, q, (n - 1) as nat);
        }
        if seg_reach(s2, leaf, p, n) {
            let q = choose|q: Point| #[trigger] neighbours(q).contains(p) && seg_reach(s2, leaf, q, (n - 1) as nat);
            lemma_seg_reach_same(s1, s2, leaf, q, (n - 1) as nat);
        }
    }
}

proof fn lemma_seg_dist_same(s1: Seq<Point>, s2: Seq<Point>, leaf: Point, p: Point)
    requires
        s1.to_set() == s2.to_set(),
    ensures
        seg_dist(s1, leaf, p) == seg_dist(s2, leaf, p),
{
    if exists|n: nat| #[trigger] seg_reach(s1, leaf, p, n) {
        let n = choose|n: nat| #[trigger] seg_reach(s1, leaf, p, n);
        lemma_min_seg(s1, leaf, p, n);
        let k = choose|k: nat| k <= n && is_seg_dist(s1, leaf, p, k);
        lemma_seg_dist(s1, leaf, p, k);
        lemma_seg_reach_same(s1, s2, leaf, p, k);
        assert forall|j: nat| j < k implies !#[trigger] seg_reach(s2, leaf, p, j) by {
            lemma_seg_reach_same(s1, s2, leaf, p, j);
        }
        lemma_seg_dist(s2, leaf, p, k);
    } else {
        assert forall|n: nat| !#[trigger] seg_reach(s2, leaf, p, n) by {
            lemma_seg_reach_same(s1, s2, leaf, p, n);
        }
    }
}

/// What one leaf adds to the murkiness of `p`.
pub open spec fn leaf_part(segments: Seq<Point>, leaf: Point, p: Point) -> int {
    if seg_dist(segments, leaf, p) >= 0 {
        seg_dist(segments, leaf, p)
    } else {
        0
    }
}

proof fn lemma_murk_segs(s1: Seq<Point>, s2: Seq<Point>, leaves: Seq<Point>, p: Point)
    requires
        s1.to_set() == s2.to_set(),
    ensures
        murk_of(s1, leaves, p) == murk_of(s2, leaves, p),
    decreases leaves.len(),
{
    if leaves.len() > 0 {
        lemma_seg_dist_same(s1, s2, leaves.last(), p);
        lemma_murk_segs(s1, s2, leaves.drop_last(), p);
    }
}

proof fn lemma_murk_remove(segs: Seq<Point>, l: Seq<Point>, k: int, p: Point)
    requires
        0 <= k < l.len(),
    ensures
        murk_of(segs, l, p) == murk_of(segs, l.remove(k), p) + leaf_part(segs, l[k], p),
    decreases l.len(),
{
    if k == l.len() - 1 {
        assert(l.remove(k) =~= l.drop_last());
    } else {
        let d = l.drop_last();
        assert(d.remove(k) =~= l.remove(k).drop_last());
        assert(l.remove(k).last() == l.last());
        assert(d[k] == l[k]);
        lemma_murk_remove(segs, d, k, p);
    }
}

proof fn lemma_murk_perm(segs: Seq<Point>, l1: Seq<Point>, l2: Seq<Point>, p: Point)
    requires
        l1.no_duplicates(),
        l2.no_duplicates(),
        forall|x: Point| #[trigger] l1.contains(x) <==> l2.contains(x),
    ensures
        murk_of(segs, l1, p) == murk_of(segs, l2, p),
    decreases l1.len(),
{
    if l1.len() == 0 {
        if l2.len() > 0 {
            assert(l2.contains(l2[0]));
            assert(!l1.contains(l2[0]));
        }
        assert(l2.len() == 0);
    } else {
        let x = l1.last();
        assert(l1.contains(x));
        let k = choose|k: int| 0 <= k < l2.len() && l2[k] == x;
        let a = l1.drop_last();
        let b = l2.remove(k);
        assert forall|y: Point| #[trigger] a.contains(y) <==> b.contains(y) by {
            if a.contains(y) {
                let i = choose|i: int| 0 <= i < a.len() && a[i] == y;
                assert(l1[i] == y);
                assert(l1.contains(y));
                let j = choose|j: int| 0 <= j < l2.len() && l2[j] == y;
                assert(j != k);
                if j < k {
                    assert(b[j] == y);
                } else {
                    assert(b[j - 1] == y);
                }
            }
            if b.contains(y) {
                let j = choose|j: int| 0 <= j < b.len() && b[j] == y;
                let jj = if j < k { j } else { j + 1 };
                assert(l2[jj] == y);
                assert(jj != k);
                assert(l2[jj] != l2[k]);
                assert(y != x);
                assert(l2.contains(y));
                assert(l1.contains(y));
                let i = choose|i: int| 0 <= i < l1.len() && l1[i] == y;
                assert(x == l1[l1.len() - 1]);
                assert(i != l1.len() - 1);
                assert(a[i] == y);
            }
        }
        assert(a.no_duplicates()) by {
            assert forall|i: int, j: int| 0 <= i < a.len() && 0 <= j < a.len() && i != j implies a[i] != a[j] by {
                assert(a[i] == l1[i] && a[j] == l1[j]);
            }
        }
        assert(b.no_duplicates()) by {
            assert forall|i: int, j: int| 0 <= i < b.len() && 0 <= j < b.len() && i != j implies b[i] != b[j] by {
                let ii = if i < k { i } else { i + 1 };
                let jj = if j < k { j } else { j + 1 };
                assert(b[i] == l2[ii] && b[j] == l2[jj]);
            }
        }
        lemma_murk_perm(segs, a, b, p);
        lemma_murk_remove(segs, l2, k, p);
        assert(murk_of(segs, l1, p) == murk_of(segs, a, p) + leaf_part(segs, x, p));
    }
}

/// `solve_part_3`'s answer depends on the wires alone: two descriptions of the same wires' cells
/// and ends give the same least murkiness. With `lemma_duplicate_wire`, a copied wire leaves the
/// answer unchanged.
pub proof fn lemma_murk_unique(
    wires: Seq<Vec<Step>>,
    s1: Seq<Point>,
    l1: Seq<Point>,
    r1: Option<usize>,
    s2: Seq<Point>,
    l2: Seq<Point>,
    r2: Option<usize>,
)
    requires
        wire_cells(wires, s1, l1),
        wire_cells(wires, s2, l2),
        least_murk(s1, l1, r1),
        least_murk(s2, l2, r2),
    ensures
        r1 == r2,
{
    assert forall|x: Point| #[trigger] l1.contains(x) <==> l2.contains(x) by {}
    assert forall|p: Point| #[trigger] reached(s1, l1, p) <==> reached(s2, l2, p) by {
        if reached(s1, l1, p) {
            let i = choose|i: int| 0 <= i < l1.len() && seg_dist(s1, #[trigger] l1[i], p) >= 0;
            assert(l1.contains(l1[i]));
            assert(l2.contains(l1[i]));
            let j = choose|j: int| 0 <= j < l2.len() && l2[j] == l1[i];
            lemma_seg_dist_same(s1, s2, l1[i], p);
            assert(seg_dist(s2, l2[j], p) >= 0);
        }
        if reached(s2, l2, p) {
            let j = choose|j: int| 0 <= j < l2.len() && seg_dist(s2, #[trigger] l2[j], p) >= 0;
            assert(l2.contains(l2[j]));
            assert(l1.contains(l2[j]));
            let i = choose|i: int| 0 <= i < l1.len() && l1[i] == l2[j];
            lemma_seg_dist_same(s1, s2, l1[i], p);
            assert(seg_dist(s1, l1[i], p) >= 0);
        }
    }
    assert forall|p: Point| #[trigger] murk_of(s1, l1, p) == murk_of(s2, l2, p) by {
        lemma_murk_segs(s1, s2, l1, p);
        lemma_murk_perm(s2, l1, l2, p);
    }
    match (r1, r2) {
        (Some(v1), Some(v2)) => {
            let p1 = choose|p: Point| on_axis(p) && #[trigger] reached(s1, l1, p) && murk_of(s1, l1, p) == v1;
            let p2 = choose|p: Point| on_axis(p) && #[trigger] reached(s2, l2, p) && murk_of(s2, l2, p) == v2;
            assert(reached(s2, l2, p1));
            assert(reached(s1, l1, p2));
        },
        (Some(v1), None) => {
            let p1 = choose|p: Point| on_axis(p) && #[trigger] reached(s1, l1, p) && murk_of(s1, l1, p) == v1;
            assert(reached(s2, l2, p1));
        },
        (None, Some(v2)) => {
            let p2 = choose|p: Point| on_axis(p) && #[trigger] reached(s2, l2, p) && murk_of(s2, l2, p) == v2;
            assert(reached(s1, l1, p2));
        },
        (None, None) => {},
    }
}

} // verus!
