use vstd::prelude::*;
use crate::grid::{
    at, count_false, flat, grid_ok, height, in_grid, is_rect, width, lemma_count_false_all,
    lemma_count_false_bound, lemma_count_false_set, lemma_dims, lemma_flat_in_range,
    lemma_flat_injective,
};

verus! {

/// A grid cell with the character it holds.
#[derive(Clone, Copy, PartialEq, Eq, Structural, Hash, Debug)]
pub struct TerrainPoint {
    pub x: i32,
    pub y: i32,
    pub value: char,
}

/// The height a character stands for: its value as a decimal digit, else zero.
pub open spec fn digit_of(c: char) -> int {
    if '0' <= c && c <= '9' {
        c as int - '0' as int
    } else {
        0
    }
}

pub open spec fn abs_diff(a: int, b: int) -> int {
    if a <= b {
        b - a
    } else {
        a - b
    }
}

/// The cost of one step between heights `a` and `b` on a dial of ten positions: one more than
/// the difference, or the way round the other side when that is shorter.
pub open spec fn step_cost(a: int, b: int) -> int {
    let d = abs_diff(a, b);
    if d > 5 {
        11 - d
    } else {
        d + 1
    }
}

/// The character that marks where the search starts.
pub open spec fn start_char(part3: bool) -> char {
    if part3 {
        'E'
    } else {
        'S'
    }
}

/// The character that marks where the search ends.
pub open spec fn goal_char(part3: bool) -> char {
    if part3 {
        'S'
    } else {
        'E'
    }
}

/// The cost of a step is the same both ways.
pub proof fn lemma_cost_symmetric(a: int, b: int)
    ensures
        step_cost(a, b) == step_cost(b, a),
{
}

/// Every character stands for a height from 0 to 9, and a step between two of them costs
/// from 1 to 6.
pub proof fn lemma_cost_range(c1: char, c2: char)
    ensures
        0 <= digit_of(c1) <= 9,
        0 <= abs_diff(digit_of(c1), digit_of(c2)) <= 9,
        1 <= step_cost(digit_of(c1), digit_of(c2)) <= 6,
{
}

/// The height of `c` as a decimal digit, zero for any other character.
pub fn digit_value(c: char) -> (r: i32)
    ensures
        r == digit_of(c),
{
    if '0' <= c && c <= '9' {
        (c as u32 - '0' as u32) as i32
    } else {
        0
    }
}

/// The cost of stepping from `p1` to `p2`.
pub fn compute_cost(p1: TerrainPoint, p2: TerrainPoint) -> (r: i32)
    ensures
        r == step_cost(digit_of(p1.value), digit_of(p2.value)),
{
    let start = digit_value(p1.value);
    let end = digit_value(p2.value);
    let abs = if end >= start {
        end - start
    } else {
        start - end
    };
    if abs > 5 {
        11 - abs
    } else {
        abs + 1
    }
}

/// Whether row `y` holds `c`.
pub open spec fn row_has(m: Seq<Vec<char>>, y: int, c: char) -> bool {
    exists|x: int| 0 <= x < m[y]@.len() && m[y]@[x] == c
}

/// Where the search starts: in the last row that holds the start character, its first
/// occurrence; (0, 0) when the grid does not hold it.
pub fn find_start(m: &Vec<Vec<char>>, part3: bool) -> (r: TerrainPoint)
    requires
        grid_ok(m@),
    ensures
        r.value == start_char(part3),
        (exists|y: int| 0 <= y < m@.len() && row_has(m@, y, start_char(part3))) ==> {
            &&& in_grid(m@, r.x as int, r.y as int)
            &&& at(m@, r.x as int, r.y as int) == start_char(part3)
            &&& forall|x: int| 0 <= x < r.x ==> m@[r.y as int]@[x] != start_char(part3)
            &&& forall|y: int| r.y < y < m@.len() ==> !row_has(m@, y, start_char(part3))
        },
        !(exists|y: int| 0 <= y < m@.len() && row_has(m@, y, start_char(part3))) ==> r.x == 0
            && r.y == 0,
{
    let start_value = if part3 {
        'E'
    } else {
        'S'
    };
    let ghost c = start_value;
    let mut start = TerrainPoint { x: 0, y: 0, value: start_value };
    let ghost mut found = false;
    proof {
        lemma_dims(m@);
    }
    let mut y: usize = 0;
    while y < m.len()
        invariant
            grid_ok(m@),
            width(m@) <= i32::MAX,
            height(m@) <= i32::MAX,
            y <= m.len(),
            start.value == c,
            c == start_value,
            c == start_char(part3),
            found == (exists|yy: int| 0 <= yy < y && row_has(m@, yy, c)),
            found ==> {
                &&& in_grid(m@, start.x as int, start.y as int)
                &&& start.y < y
                &&& at(m@, start.x as int, start.y as int) == c
                &&& forall|x: int| 0 <= x < start.x ==> m@[start.y as int]@[x] != c
                &&& forall|yy: int| start.y < yy < y ==> !row_has(m@, yy, c)
            },
            !found ==> start.x == 0 && start.y == 0,
        decreases m.len() - y,
    {
        let row = &m[y];
        let mut x: usize = 0;
        let mut hit = false;
        while x < row.len()
            invariant_except_break
                !hit,
            invariant
                y < m@.len(),
                row@ == m@[y as int]@,
                x <= row@.len(),
                c == start_value,
                forall|xx: int| 0 <= xx < x ==> row@[xx] != c,
            ensures
                hit ==> x < row@.len() && row@[x as int] == c,
                !hit ==> x == row@.len(),
            decreases row.len() - x,
        {
            if row[x] == start_value {
                hit = true;
                break;
            }
            x = x + 1;
        }
        proof {
            assert(row@.len() == width(m@));
        }
        if hit {
            start.x = x as i32;
            start.y = y as i32;
            proof {
                assert(m@[y as int]@[x as int] == c);
                assert(row_has(m@, y as int, c));
                found = true;
            }
        } else {
            proof {
                assert(!row_has(m@, y as int, c));
            }
        }
        proof {
            if !hit {
                assert((exists|yy: int| 0 <= yy < y + 1 && row_has(m@, yy, c)) ==> (exists|yy: int|
                    0 <= yy < y && row_has(m@, yy, c)));
            }
        }
        y = y + 1;
    }
    start
}

/// A cell that can be entered: inside the grid and not a wall.
pub open spec fn passable(m: Seq<Vec<char>>, x: int, y: int) -> bool {
    in_grid(m, x, y) && at(m, x, y) != '#'
}

/// The cell at (x, y) as a one-element sequence when it can be entered, else empty.
pub open spec fn keep(m: Seq<Vec<char>>, x: int, y: int) -> Seq<TerrainPoint> {
    if passable(m, x, y) {
        seq![TerrainPoint { x: x as i32, y: y as i32, value: at(m, x, y) }]
    } else {
        seq![]
    }
}

/// The neighbours of `p` that can be entered, in the order up, right, down, left.
pub open spec fn adjacent(m: Seq<Vec<char>>, p: TerrainPoint) -> Seq<TerrainPoint> {
    let (x, y) = (p.x as int, p.y as int);
    keep(m, x, y - 1) + keep(m, x + 1, y) + keep(m, x, y + 1) + keep(m, x - 1, y)
}

proof fn lemma_keep_ok(m: Seq<Vec<char>>, x: int, y: int, i: int)
    requires
        i32::MIN <= x <= i32::MAX,
        i32::MIN <= y <= i32::MAX,
        0 <= i < keep(m, x, y).len(),
    ensures
        keep(m, x, y)[i].x == x,
        keep(m, x, y)[i].y == y,
        passable(m, x, y),
        keep(m, x, y)[i].value == at(m, x, y),
{
}

/// Each neighbour lies in the grid, one step away, and carries its own character.
pub proof fn lemma_adjacent_ok(m: Seq<Vec<char>>, p: TerrainPoint, i: int)
    requires
        i32::MIN < p.x < i32::MAX,
        i32::MIN < p.y < i32::MAX,
        0 <= i < adjacent(m, p).len(),
    ensures
        passable(m, adjacent(m, p)[i].x as int, adjacent(m, p)[i].y as int),
        adjacent(m, p)[i].value == at(m, adjacent(m, p)[i].x as int, adjacent(m, p)[i].y as int),
        abs_diff(adjacent(m, p)[i].x as int, p.x as int) + abs_diff(
            adjacent(m, p)[i].y as int,
            p.y as int,
        ) == 1,
{
    let (x, y) = (p.x as int, p.y as int);
    let a = keep(m, x, y - 1);
    let b = keep(m, x + 1, y);
    let c = keep(m, x, y + 1);
    let d = keep(m, x - 1, y);
    let ab = a + b;
    let abc = ab + c;
    assert(adjacent(m, p) == abc + d);
    if i < a.len() {
        lemma_keep_ok(m, x, y - 1, i);
    } else if i < ab.len() {
        lemma_keep_ok(m, x + 1, y, i - a.len());
    } else if i < abc.len() {
        lemma_keep_ok(m, x, y + 1, i - ab.len());
    } else {
        lemma_keep_ok(m, x - 1, y, i - abc.len());
    }
}

/// The cell at (x, y) with its character, when it can be entered.
fn cell_at(m: &Vec<Vec<char>>, x: i32, y: i32) -> (r: Option<TerrainPoint>)
    requires
        is_rect(m@),
    ensures
        r is Some <==> passable(m@, x as int, y as int),
        r matches Some(q) ==> q == (TerrainPoint { x, y, value: at(m@, x as int, y as int) }),
{
    if x < 0 || y < 0 || x as usize >= m[0].len() || y as usize >= m.len() {
        return None;
    }
    let value = m[y as usize][x as usize];
    if value == '#' {
        None
    } else {
        Some(TerrainPoint { x, y, value })
    }
}

/// The neighbours of `p` that lie in the grid and are not walls, up, right, down, left, each
/// with the character it holds.
pub fn find_adjacent_points(m: &Vec<Vec<char>>, p: TerrainPoint) -> (r: Vec<TerrainPoint>)
    requires
        is_rect(m@),
        i32::MIN < p.x < i32::MAX,
        i32::MIN < p.y < i32::MAX,
    ensures
        r@ == adjacent(m@, p),
{
    let mut points: Vec<TerrainPoint> = Vec::new();
    if let Some(q) = cell_at(m, p.x, p.y - 1) {
        points.push(q);
    }
    assert(points@ =~= keep(m@, p.x as int, p.y - 1));
    let ghost a = points@;
    if let Some(q) = cell_at(m, p.x + 1, p.y) {
        points.push(q);
    }
    assert(points@ =~= a + keep(m@, p.x + 1, p.y as int));
    let ghost b = points@;
    if let Some(q) = cell_at(m, p.x, p.y + 1) {
        points.push(q);
    }
    assert(points@ =~= b + keep(m@, p.x as int, p.y + 1));
    let ghost c = points@;
    if let Some(q) = cell_at(m, p.x - 1, p.y) {
        points.push(q);
    }
    assert(points@ =~= c + keep(m@, p.x - 1, p.y as int));
    points
}

/// The grid is small enough that a cost of six per cell fits an `i32`.
pub open spec fn costs_fit(m: Seq<Vec<char>>) -> bool {
    grid_ok(m) && 6 * (width(m) * height(m)) <= i32::MAX
}

/// Whether the grid holds `c` somewhere.
pub open spec fn grid_has(m: Seq<Vec<char>>, c: char) -> bool {
    exists|x: int, y: int| in_grid(m, x, y) && at(m, x, y) == c
}

/// Takes out an entry of least cost.
fn pop_min(heap: &mut Vec<(i32, TerrainPoint)>) -> (r: (i32, TerrainPoint))
    requires
        old(heap)@.len() > 0,
    ensures
        exists|i: int|
            0 <= i < old(heap)@.len() && r == old(heap)@[i] && final(heap)@ == old(heap)@.remove(i),
        forall|j: int| 0 <= j < old(heap)@.len() ==> r.0 <= #[trigger] old(heap)@[j].0,
{
    let mut best: usize = 0;
    let mut i: usize = 1;
    while i < heap.len()
        invariant
            1 <= i <= heap@.len(),
            best < heap@.len(),
            forall|j: int| 0 <= j < i ==> heap@[best as int].0 <= #[trigger] heap@[j].0,
        decreases heap.len() - i,
    {
        if heap[i].0 < heap[best].0 {
            best = i;
        }
        i = i + 1;
    }
    heap.remove(best)
}

/// What holds of each entry of the frontier: a cell of the grid that can be entered, with its
/// own character, at a cost of at most six per cell finalised so far.
pub open spec fn entry_ok(m: Seq<Vec<char>>, e: (i32, TerrainPoint), settled: int) -> bool {
    &&& in_grid(m, e.1.x as int, e.1.y as int)
    &&& e.1.value == at(m, e.1.x as int, e.1.y as int)
    &&& 0 <= e.0 <= 6 * settled
}

/// Two cells one unit apart along one axis.
pub open spec fn next_to(a: TerrainPoint, b: TerrainPoint) -> bool {
    abs_diff(a.x as int, b.x as int) + abs_diff(a.y as int, b.y as int) == 1
}

/// A walk through the grid: cells that carry their own characters, each step to a neighbour
/// that can be entered.
pub open spec fn is_walk(m: Seq<Vec<char>>, w: Seq<TerrainPoint>) -> bool {
    &&& w.len() >= 1
    &&& forall|i: int|
        0 <= i < w.len() ==> in_grid(m, (#[trigger] w[i]).x as int, w[i].y as int) && w[i].value
            == at(m, w[i].x as int, w[i].y as int)
    &&& forall|i: int|
        0 <= i < w.len() - 1 ==> next_to(#[trigger] w[i], w[i + 1]) && passable(
            m,
            w[i + 1].x as int,
            w[i + 1].y as int,
        )
}

/// The cost of a walk: the sum of the costs of its steps.
pub open spec fn walk_cost(w: Seq<TerrainPoint>) -> int
    decreases w.len(),
{
    if w.len() <= 1 {
        0
    } else {
        walk_cost(w.drop_last()) + step_cost(digit_of(w[w.len() - 2].value), digit_of(w.last().value))
    }
}

/// `w` is a walk from `start` to the cell of entry `e`, at the cost that `e` records.
pub open spec fn walk_for(
    m: Seq<Vec<char>>,
    start: TerrainPoint,
    w: Seq<TerrainPoint>,
    e: (i32, TerrainPoint),
) -> bool {
    is_walk(m, w) && w[0] == start && w.last() == e.1 && walk_cost(w) == e.0
}

/// `r` is the least cost of a walk from `start` to a cell holding `goal`, or -1 when no walk
/// reaches such a cell.
pub open spec fn least_cost(m: Seq<Vec<char>>, start: TerrainPoint, goal: char, r: int) -> bool {
    if r == -1 {
        forall|w: Seq<TerrainPoint>| #[trigger] is_walk(m, w) && w[0] == start ==> w.last().value != goal
    } else {
        &&& 0 <= r
        &&& exists|w: Seq<TerrainPoint>|
            #[trigger] is_walk(m, w) && w[0] == start && w.last().value == goal && walk_cost(w) == r
        &&& forall|w: Seq<TerrainPoint>|
            #[trigger] is_walk(m, w) && w[0] == start && w.last().value == goal ==> r <= walk_cost(w)
    }
}

/// The least cost is one number: any two results that meet `least_cost` for the same grid,
/// start and goal are equal, so the order in which entries of equal cost leave the frontier
/// cannot change what `search` returns.
pub proof fn lemma_least_cost_unique(
    m: Seq<Vec<char>>,
    start: TerrainPoint,
    goal: char,
    r1: int,
    r2: int,
)
    requires
        least_cost(m, start, goal, r1),
        least_cost(m, start, goal, r2),
    ensures
        r1 == r2,
{
    if r1 != -1 && r2 != -1 {
        let w1 = choose|w: Seq<TerrainPoint>|
            #[trigger] is_walk(m, w) && w[0] == start && w.last().value == goal && walk_cost(w) == r1;
        let w2 = choose|w: Seq<TerrainPoint>|
            #[trigger] is_walk(m, w) && w[0] == start && w.last().value == goal && walk_cost(w) == r2;
        assert(r2 <= walk_cost(w1));
        assert(r1 <= walk_cost(w2));
    } else if r1 != -1 {
        let w1 = choose|w: Seq<TerrainPoint>|
            #[trigger] is_walk(m, w) && w[0] == start && w.last().value == goal && walk_cost(w) == r1;
        assert(w1.last().value != goal);
    } else if r2 != -1 {
        let w2 = choose|w: Seq<TerrainPoint>|
            #[trigger] is_walk(m, w) && w[0] == start && w.last().value == goal && walk_cost(w) == r2;
        assert(w2.last().value != goal);
    }
}

/// `p` is a cell of the grid that carries its own character.
pub open spec fn is_cell(m: Seq<Vec<char>>, p: TerrainPoint) -> bool {
    in_grid(m, p.x as int, p.y as int) && p.value == at(m, p.x as int, p.y as int)
}

/// The cell of `p` is finalised in `vis`.
pub open spec fn settled_at(m: Seq<Vec<char>>, vis: Seq<bool>, p: TerrainPoint) -> bool {
    vis[flat(m, p.x as int, p.y as int)]
}

/// The cost recorded for the cell of `p`.
pub open spec fn bound_at(m: Seq<Vec<char>>, dd: Seq<int>, p: TerrainPoint) -> int {
    dd[flat(m, p.x as int, p.y as int)]
}

/// Every walk from `start` to a finalised cell costs at least what was recorded for it.
pub open spec fn lower_bounds(m: Seq<Vec<char>>, start: TerrainPoint, vis: Seq<bool>, dd: Seq<int>) -> bool {
    forall|w: Seq<TerrainPoint>|
        #[trigger] is_walk(m, w) && w[0] == start && settled_at(m, vis, w.last()) ==> walk_cost(w)
            >= bound_at(m, dd, w.last())
}

/// The frontier holds an entry for `v` at a cost of at most `b`.
pub open spec fn covered(heap: Seq<(i32, TerrainPoint)>, v: TerrainPoint, b: int) -> bool {
    exists|j: int| 0 <= j < heap.len() && (#[trigger] heap[j]).1 == v && heap[j].0 <= b
}

/// Each neighbour of a cell finalised in `vis_u` is finalised in `vis_v` or waits in the
/// frontier at no more than the cost through that cell.
pub open spec fn frontier_covers(
    m: Seq<Vec<char>>,
    vis_u: Seq<bool>,
    vis_v: Seq<bool>,
    dd: Seq<int>,
    heap: Seq<(i32, TerrainPoint)>,
) -> bool {
    forall|u: TerrainPoint, v: TerrainPoint|
        is_cell(m, u) && settled_at(m, vis_u, u) && is_cell(m, v) && #[trigger] next_to(u, v) && passable(
            m,
            v.x as int,
            v.y as int,
        ) ==> settled_at(m, vis_v, v) || covered(
            heap,
            v,
            bound_at(m, dd, u) + step_cost(digit_of(u.value), digit_of(v.value)),
        )
}

/// No finalised cell holds `goal`.
pub open spec fn settled_not_goal(m: Seq<Vec<char>>, vis: Seq<bool>, goal: char) -> bool {
    forall|p: TerrainPoint| is_cell(m, p) && #[trigger] settled_at(m, vis, p) ==> p.value != goal
}

proof fn lemma_covered_remove(heap: Seq<(i32, TerrainPoint)>, i: int, v: TerrainPoint, b: int)
    requires
        0 <= i < heap.len(),
        covered(heap, v, b),
    ensures
        heap[i].1 == v || covered(heap.remove(i), v, b),
{
    let j = choose|j: int| 0 <= j < heap.len() && (#[trigger] heap[j]).1 == v && heap[j].0 <= b;
    if j < i {
        assert(heap.remove(i)[j] == heap[j]);
    } else if j > i {
        assert(heap.remove(i)[j - 1] == heap[j]);
    }
}

proof fn lemma_covered_push(heap: Seq<(i32, TerrainPoint)>, e: (i32, TerrainPoint), v: TerrainPoint, b: int)
    requires
        covered(heap, v, b),
    ensures
        covered(heap.push(e), v, b),
{
    let j = choose|j: int| 0 <= j < heap.len() && (#[trigger] heap[j]).1 == v && heap[j].0 <= b;
    assert(heap.push(e)[j] == heap[j]);
}

/// A walk less its last cell is a walk.
proof fn lemma_walk_prefix(m: Seq<Vec<char>>, w: Seq<TerrainPoint>)
    requires
        is_walk(m, w),
        w.len() > 1,
    ensures
        is_walk(m, w.drop_last()),
        w.drop_last()[0] == w[0],
        next_to(w.drop_last().last(), w.last()),
        passable(m, w.last().x as int, w.last().y as int),
        is_cell(m, w.last()),
        is_cell(m, w.drop_last().last()),
{
    let p = w.drop_last();
    assert forall|i: int| 0 <= i < p.len() - 1 implies next_to(#[trigger] p[i], p[i + 1]) && passable(
        m,
        p[i + 1].x as int,
        p[i + 1].y as int,
    ) by {
        assert(p[i] == w[i] && p[i + 1] == w[i + 1]);
    }
    assert(next_to(w[w.len() - 2], w[w.len() - 1]));
    assert(is_cell(m, w[w.len() - 2]));
}

/// A walk from `start` that ends on a cell not finalised costs at least `c`, when `c` is no more
/// than any entry of the frontier and the frontier covers the finalised cells.
proof fn lemma_walk_lower(
    m: Seq<Vec<char>>,
    start: TerrainPoint,
    vis: Seq<bool>,
    dd: Seq<int>,
    heap: Seq<(i32, TerrainPoint)>,
    c: int,
    w: Seq<TerrainPoint>,
)
    requires
        lower_bounds(m, start, vis, dd),
        frontier_covers(m, vis, vis, dd, heap),
        settled_at(m, vis, start) || covered(heap, start, 0),
        forall|j: int| 0 <= j < heap.len() ==> c <= (#[trigger] heap[j]).0,
        is_walk(m, w),
        w[0] == start,
        !settled_at(m, vis, w.last()),
    ensures
        walk_cost(w) >= c,
    decreases w.len(),
{
    if w.len() == 1 {
        assert(w.last() == start);
        let j = choose|j: int| 0 <= j < heap.len() && (#[trigger] heap[j]).1 == start && heap[j].0 <= 0;
        assert(c <= heap[j].0);
    } else {
        let p = w.drop_last();
        let u = p.last();
        let v = w.last();
        lemma_walk_prefix(m, w);
        lemma_cost_range(u.value, v.value);
        assert(w[w.len() - 2] == u);
        if settled_at(m, vis, u) {
            assert(is_walk(m, p) && p[0] == start && settled_at(m, vis, p.last()));
            assert(walk_cost(p) >= bound_at(m, dd, u));
            assert(next_to(u, v));
            let b = bound_at(m, dd, u) + step_cost(digit_of(u.value), digit_of(v.value));
            assert(covered(heap, v, b));
            let j = choose|j: int| 0 <= j < heap.len() && (#[trigger] heap[j]).1 == v && heap[j].0 <= b;
            assert(c <= heap[j].0);
        } else {
            lemma_walk_lower(m, start, vis, dd, heap, c, p);
        }
    }
}

/// With an empty frontier and `start` finalised, every walk from `start` ends on a finalised
/// cell.
proof fn lemma_walk_closed(
    m: Seq<Vec<char>>,
    start: TerrainPoint,
    vis: Seq<bool>,
    dd: Seq<int>,
    w: Seq<TerrainPoint>,
)
    requires
        frontier_covers(m, vis, vis, dd, Seq::<(i32, TerrainPoint)>::empty()),
        settled_at(m, vis, start),
        is_walk(m, w),
        w[0] == start,
    ensures
        settled_at(m, vis, w.last()),
    decreases w.len(),
{
    if w.len() > 1 {
        let p = w.drop_last();
        lemma_walk_prefix(m, w);
        lemma_walk_closed(m, start, vis, dd, p);
        assert(w[w.len() - 2] == p.last());
        assert(next_to(p.last(), w.last()));
    }
}

/// A neighbour that can be entered is among those that `adjacent` lists.
proof fn lemma_next_to_adjacent(m: Seq<Vec<char>>, u: TerrainPoint, v: TerrainPoint)
    requires
        i32::MIN < u.x < i32::MAX,
        i32::MIN < u.y < i32::MAX,
        next_to(u, v),
        is_cell(m, v),
        passable(m, v.x as int, v.y as int),
    ensures
        adjacent(m, u).contains(v),
{
    let (x, y) = (u.x as int, u.y as int);
    let a = keep(m, x, y - 1);
    let b = keep(m, x + 1, y);
    let c = keep(m, x, y + 1);
    let d = keep(m, x - 1, y);
    let ab = a + b;
    let abc = ab + c;
    assert(adjacent(m, u) == abc + d);
    if v.x == u.x && v.y == u.y - 1 {
        assert(adjacent(m, u)[0] == v);
    } else if v.x == u.x + 1 && v.y == u.y {
        assert(adjacent(m, u)[a.len() as int] == v);
    } else if v.x == u.x && v.y == u.y + 1 {
        assert(adjacent(m, u)[ab.len() as int] == v);
    } else {
        assert(v.x == u.x - 1 && v.y == u.y);
        assert(adjacent(m, u)[abc.len() as int] == v);
    }
}

proof fn lemma_nothing_settled(
    g: Seq<Vec<char>>,
    vis: Seq<bool>,
    dd: Seq<int>,
    heap: Seq<(i32, TerrainPoint)>,
    start: TerrainPoint,
    goal: char,
)
    requires
        grid_ok(g),
        vis == Seq::new((width(g) * height(g)) as nat, |i: int| false),
    ensures
        lower_bounds(g, start, vis, dd),
        frontier_covers(g, vis, vis, dd, heap),
        settled_not_goal(g, vis, goal),
{
    assert forall|p: TerrainPoint| is_cell(g, p) implies !settled_at(g, vis, p) by {
        lemma_flat_in_range(g, p.x as int, p.y as int);
    }
    assert forall|wk: Seq<TerrainPoint>|
        #[trigger] is_walk(g, wk) && wk[0] == start && settled_at(g, vis, wk.last()) implies walk_cost(wk)
            >= bound_at(g, dd, wk.last()) by {
        assert(is_cell(g, wk[wk.len() - 1]));
    }
}

proof fn lemma_stale_pop(
    g: Seq<Vec<char>>,
    start: TerrainPoint,
    vis: Seq<bool>,
    dd: Seq<int>,
    h0: Seq<(i32, TerrainPoint)>,
    i: int,
)
    requires
        0 <= i < h0.len(),
        settled_at(g, vis, h0[i].1),
        frontier_covers(g, vis, vis, dd, h0),
        settled_at(g, vis, start) || covered(h0, start, 0),
    ensures
        frontier_covers(g, vis, vis, dd, h0.remove(i)),
        settled_at(g, vis, start) || covered(h0.remove(i), start, 0),
{
    assert forall|u: TerrainPoint, v: TerrainPoint|
        is_cell(g, u) && settled_at(g, vis, u) && is_cell(g, v) && #[trigger] next_to(u, v) && passable(
            g,
            v.x as int,
            v.y as int,
        ) implies settled_at(g, vis, v) || covered(
            h0.remove(i),
            v,
            bound_at(g, dd, u) + step_cost(digit_of(u.value), digit_of(v.value)),
        ) by {
        if !settled_at(g, vis, v) {
            lemma_covered_remove(h0, i, v, bound_at(g, dd, u) + step_cost(digit_of(u.value), digit_of(v.value)));
        }
    }
    if !settled_at(g, vis, start) {
        lemma_covered_remove(h0, i, start, 0);
    }
}

/// Finalising the cell of the least entry `h0[i]`, at flat position `k`, keeps the records
/// sound and the frontier covering the cells finalised before.
proof fn lemma_settle(
    g: Seq<Vec<char>>,
    start: TerrainPoint,
    goal: char,
    vis0: Seq<bool>,
    dd0: Seq<int>,
    h0: Seq<(i32, TerrainPoint)>,
    i: int,
    k: int,
)
    requires
        grid_ok(g),
        vis0.len() == width(g) * height(g),
        dd0.len() == width(g) * height(g),
        0 <= i < h0.len(),
        is_cell(g, start),
        is_cell(g, h0[i].1),
        h0[i].1.value != goal,
        k == flat(g, h0[i].1.x as int, h0[i].1.y as int),
        !vis0[k],
        forall|j: int| 0 <= j < h0.len() ==> h0[i].0 <= (#[trigger] h0[j]).0,
        lower_bounds(g, start, vis0, dd0),
        frontier_covers(g, vis0, vis0, dd0, h0),
        settled_at(g, vis0, start) || covered(h0, start, 0),
        settled_not_goal(g, vis0, goal),
    ensures
        ({
            let vis = vis0.update(k, true);
            let dd = dd0.update(k, h0[i].0 as int);
            &&& lower_bounds(g, start, vis, dd)
            &&& frontier_covers(g, vis0, vis, dd, h0.remove(i))
            &&& settled_at(g, vis, start) || covered(h0.remove(i), start, 0)
            &&& settled_not_goal(g, vis, goal)
        }),
{
    let vis = vis0.update(k, true);
    let dd = dd0.update(k, h0[i].0 as int);
    let point = h0[i].1;
    let cost = h0[i].0;
    lemma_flat_in_range(g, point.x as int, point.y as int);
    assert forall|wk: Seq<TerrainPoint>|
        #[trigger] is_walk(g, wk) && wk[0] == start && settled_at(g, vis, wk.last()) implies walk_cost(wk)
            >= bound_at(g, dd, wk.last()) by {
        assert(is_cell(g, wk[wk.len() - 1]));
        lemma_flat_in_range(g, wk.last().x as int, wk.last().y as int);
        if flat(g, wk.last().x as int, wk.last().y as int) == k {
            lemma_walk_lower(g, start, vis0, dd0, h0, cost as int, wk);
        } else {
            assert(settled_at(g, vis0, wk.last()));
        }
    }
    assert forall|u: TerrainPoint, v: TerrainPoint|
        is_cell(g, u) && settled_at(g, vis0, u) && is_cell(g, v) && #[trigger] next_to(u, v) && passable(
            g,
            v.x as int,
            v.y as int,
        ) implies settled_at(g, vis, v) || covered(
            h0.remove(i),
            v,
            bound_at(g, dd, u) + step_cost(digit_of(u.value), digit_of(v.value)),
        ) by {
        lemma_flat_in_range(g, u.x as int, u.y as int);
        lemma_flat_in_range(g, v.x as int, v.y as int);
        assert(bound_at(g, dd, u) == bound_at(g, dd0, u));
        if !settled_at(g, vis0, v) {
            lemma_covered_remove(h0, i, v, bound_at(g, dd, u) + step_cost(digit_of(u.value), digit_of(v.value)));
            if h0[i].1 == v {
                assert(settled_at(g, vis, v));
            }
        }
    }
    lemma_flat_in_range(g, start.x as int, start.y as int);
    if !settled_at(g, vis0, start) {
        lemma_covered_remove(h0, i, start, 0);
        if h0[i].1 == start {
            assert(settled_at(g, vis, start));
        }
    }
    assert forall|p: TerrainPoint| is_cell(g, p) && #[trigger] settled_at(g, vis, p) implies p.value != goal by {
        lemma_flat_in_range(g, p.x as int, p.y as int);
        if flat(g, p.x as int, p.y as int) == k {
            lemma_flat_injective(g, p.x as int, p.y as int, point.x as int, point.y as int);
        } else {
            assert(settled_at(g, vis0, p));
        }
    }
}

proof fn lemma_push_keeps(
    g: Seq<Vec<char>>,
    vis0: Seq<bool>,
    vis: Seq<bool>,
    dd: Seq<int>,
    h1: Seq<(i32, TerrainPoint)>,
    e: (i32, TerrainPoint),
    start: TerrainPoint,
    point: TerrainPoint,
    cost: int,
    points: Seq<TerrainPoint>,
    n: int,
)
    requires
        0 <= n < points.len(),
        e.0 == cost + step_cost(digit_of(point.value), digit_of(points[n].value)),
        e.1 == points[n],
        frontier_covers(g, vis0, vis, dd, h1),
        settled_at(g, vis, start) || covered(h1, start, 0),
        forall|j: int|
            0 <= j < n ==> covered(
                h1,
                #[trigger] points[j],
                cost + step_cost(digit_of(point.value), digit_of(points[j].value)),
            ),
    ensures
        frontier_covers(g, vis0, vis, dd, h1.push(e)),
        settled_at(g, vis, start) || covered(h1.push(e), start, 0),
        forall|j: int|
            0 <= j < n + 1 ==> covered(
                h1.push(e),
                #[trigger] points[j],
                cost + step_cost(digit_of(point.value), digit_of(points[j].value)),
            ),
{
    let heap = h1.push(e);
    assert forall|u: TerrainPoint, v: TerrainPoint|
        is_cell(g, u) && settled_at(g, vis0, u) && is_cell(g, v) && #[trigger] next_to(u, v) && passable(
            g,
            v.x as int,
            v.y as int,
        ) implies settled_at(g, vis, v) || covered(
            heap,
            v,
            bound_at(g, dd, u) + step_cost(digit_of(u.value), digit_of(v.value)),
        ) by {
        if !settled_at(g, vis, v) {
            lemma_covered_push(h1, e, v, bound_at(g, dd, u) + step_cost(digit_of(u.value), digit_of(v.value)));
        }
    }
    if !settled_at(g, vis, start) {
        lemma_covered_push(h1, e, start, 0);
    }
    assert forall|j: int|
        0 <= j < n + 1 implies covered(
            heap,
            #[trigger] points[j],
            cost + step_cost(digit_of(point.value), digit_of(points[j].value)),
        ) by {
        if j < n {
            lemma_covered_push(h1, e, points[j], cost + step_cost(digit_of(point.value), digit_of(points[j].value)));
        } else {
            assert(heap[h1.len() as int] == e);
        }
    }
}

/// Once every neighbour of the newly finalised `point` has been pushed, the frontier covers all
/// finalised cells again.
proof fn lemma_close_point(
    g: Seq<Vec<char>>,
    vis0: Seq<bool>,
    vis: Seq<bool>,
    dd: Seq<int>,
    heap: Seq<(i32, TerrainPoint)>,
    point: TerrainPoint,
    cost: int,
    points: Seq<TerrainPoint>,
    k: int,
)
    requires
        grid_ok(g),
        vis0.len() == width(g) * height(g),
        is_cell(g, point),
        k == flat(g, point.x as int, point.y as int),
        vis == vis0.update(k, true),
        dd[k] == cost,
        points == adjacent(g, point),
        frontier_covers(g, vis0, vis, dd, heap),
        forall|j: int|
            0 <= j < points.len() ==> covered(
                heap,
                #[trigger] points[j],
                cost + step_cost(digit_of(point.value), digit_of(points[j].value)),
            ),
    ensures
        frontier_covers(g, vis, vis, dd, heap),
{
    lemma_dims(g);
    lemma_flat_in_range(g, point.x as int, point.y as int);
    assert forall|u: TerrainPoint, v: TerrainPoint|
        is_cell(g, u) && settled_at(g, vis, u) && is_cell(g, v) && #[trigger] next_to(u, v) && passable(
            g,
            v.x as int,
            v.y as int,
        ) implies settled_at(g, vis, v) || covered(
            heap,
            v,
            bound_at(g, dd, u) + step_cost(digit_of(u.value), digit_of(v.value)),
        ) by {
        lemma_flat_in_range(g, u.x as int, u.y as int);
        if !settled_at(g, vis0, u) {
            assert(flat(g, u.x as int, u.y as int) == k);
            lemma_flat_injective(g, u.x as int, u.y as int, point.x as int, point.y as int);
            assert(u == point);
            lemma_next_to_adjacent(g, point, v);
            let j = choose|j: int| 0 <= j < points.len() && points[j] == v;
            assert(covered(heap, points[j], cost + step_cost(digit_of(point.value), digit_of(points[j].value))));
        }
    }
}

/// Least-cost search from the start character to the goal character (`'S'` to `'E'`, or `'E'`
/// to `'S'` when `part3` holds). Returns -1 when the grid holds no start; see `search` for the
/// rest.
pub fn bfs(m: &Vec<Vec<char>>, part3: bool) -> (r: i32)
    requires
        costs_fit(m@),
    ensures
        r == -1 || 0 <= r,
        0 <= r ==> grid_has(m@, goal_char(part3)) && grid_has(m@, start_char(part3)),
        !grid_has(m@, start_char(part3)) ==> r == -1,
        grid_has(m@, start_char(part3)) ==> exists|s: TerrainPoint|
            is_cell(m@, s) && s.value == start_char(part3) && least_cost(
                m@,
                s,
                goal_char(part3),
                r as int,
            ),
{
    let start = find_start(m, part3);
    proof {
        lemma_dims(m@);
    }
    if start.x as usize >= m[0].len() || m[start.y as usize][start.x as usize] != start.value {
        proof {
            if grid_has(m@, start_char(part3)) {
                let (x, y) = choose|x: int, y: int| in_grid(m@, x, y) && at(m@, x, y) == start_char(part3);
                assert(row_has(m@, y, start_char(part3)));
            }
        }
        return -1;
    }
    let goal = if part3 {
        'S'
    } else {
        'E'
    };
    let r = search(m, start, goal);
    proof {
        assert(is_cell(m@, start) && start.value == start_char(part3) && least_cost(m@, start, goal_char(part3), r as int));
    }
    r
}

/// Least-cost search from `start` to a cell holding `goal`, walls excluded, each step costing
/// `step_cost` of the two heights. Returns the cost at which a goal cell is first taken from
/// the frontier, which is the least cost of any walk from `start` to a goal cell, whatever the
/// order in which entries of equal cost leave the frontier; or -1 when no walk reaches a goal
/// cell.
pub fn search(m: &Vec<Vec<char>>, start: TerrainPoint, goal: char) -> (r: i32)
    requires
        costs_fit(m@),
        is_cell(m@, start),
    ensures
        r == -1 || 0 <= r,
        0 <= r ==> grid_has(m@, goal),
        0 <= r ==> exists|w: Seq<TerrainPoint>|
            is_walk(m@, w) && w[0] == start && w.last().value == goal && walk_cost(w) == r,
        0 <= r ==> forall|w: Seq<TerrainPoint>|
            #[trigger] is_walk(m@, w) && w[0] == start && w.last().value == goal ==> r <= walk_cost(w),
        r == -1 ==> forall|w: Seq<TerrainPoint>|
            #[trigger] is_walk(m@, w) && w[0] == start ==> w.last().value != goal,
        least_cost(m@, start, goal, r as int),
{
    let ghost g = m@;
    proof {
        lemma_dims(g);
    }
    let w = m[0].len();
    let hw = w * m.len();
    let mut visited: Vec<bool> = Vec::new();
    let mut k: usize = 0;
    while k < hw
        invariant
            k <= hw,
            visited@ == Seq::new(k as nat, |i: int| false),
        decreases hw - k,
    {
        visited.push(false);
        k = k + 1;
        proof {
            assert(visited@ =~= Seq::new(k as nat, |i: int| false));
        }
    }
    proof {
        lemma_count_false_all(hw as nat);
    }
    let mut heap: Vec<(i32, TerrainPoint)> = Vec::new();
    heap.push((0, start));
    let ghost mut walks: Seq<Seq<TerrainPoint>> = seq![seq![start]];
    let ghost mut dd: Seq<int> = Seq::new(hw as nat, |i: int| 0);
    proof {
        assert(walk_for(g, start, seq![start], heap@[0]));
        lemma_flat_in_range(g, start.x as int, start.y as int);
        assert(heap@[0].1 == start);
        assert(covered(heap@, start, 0));
        lemma_nothing_settled(g, visited@, dd, heap@, start, goal);
    }
    while heap.len() > 0
        invariant
            costs_fit(g),
            g == m@,
            is_cell(g, start),
            w == width(g),
            hw == width(g) * height(g),
            visited@.len() == hw,
            dd.len() == hw,
            count_false(visited@) <= hw,
            forall|i: int|
                0 <= i < heap@.len() ==> entry_ok(g, #[trigger] heap@[i], hw - count_false(visited@)),
            walks.len() == heap@.len(),
            forall|i: int| 0 <= i < heap@.len() ==> walk_for(g, start, #[trigger] walks[i], heap@[i]),
            lower_bounds(g, start, visited@, dd),
            frontier_covers(g, visited@, visited@, dd, heap@),
            settled_at(g, visited@, start) || covered(heap@, start, 0),
            settled_not_goal(g, visited@, goal),
        decreases 5 * count_false(visited@) + heap@.len(),
    {
        let ghost h0 = heap@;
        let (cost, point) = pop_min(&mut heap);
        let ghost i = choose|i: int| 0 <= i < h0.len() && (cost, point) == h0[i] && heap@ == h0.remove(i);
        let ghost cur = walks[i];
        proof {
            assert(walk_for(g, start, cur, h0[i]));
            let w0 = walks;
            walks = walks.remove(i);
            assert(entry_ok(g, h0[i], hw - count_false(visited@)));
            assert forall|j: int| 0 <= j < heap@.len() implies entry_ok(g, #[trigger] heap@[j], hw - count_false(visited@))
                && walk_for(g, start, walks[j], heap@[j]) by {
                if j < i {
                    assert(heap@[j] == h0[j]);
                    assert(walks[j] == w0[j]);
                } else {
                    assert(heap@[j] == h0[j + 1]);
                    assert(walks[j] == w0[j + 1]);
                }
            }
            lemma_flat_in_range(g, point.x as int, point.y as int);
        }
        let k = point.y as usize * w + point.x as usize;
        if visited[k] {
            proof {
                lemma_stale_pop(g, start, visited@, dd, h0, i);
            }
            continue;
        }
        if point.value == goal {
            proof {
                assert(is_walk(g, cur) && cur[0] == start && cur.last().value == goal && walk_cost(cur) == cost);
                assert forall|wk: Seq<TerrainPoint>|
                    #[trigger] is_walk(g, wk) && wk[0] == start && wk.last().value == goal implies cost <= walk_cost(wk) by {
                    assert(is_cell(g, wk[wk.len() - 1]));
                    lemma_walk_lower(g, start, visited@, dd, h0, cost as int, wk);
                }
            }
            return cost;
        }
        let ghost vis0 = visited@;
        let ghost dd0 = dd;
        proof {
            lemma_count_false_set(visited@, k as int);
            dd = dd.update(k as int, cost as int);
        }
        visited.set(k, true);
        let ghost settled = hw - count_false(visited@);
        proof {
            lemma_count_false_bound(visited@);
            assert forall|j: int| 0 <= j < heap@.len() implies entry_ok(g, #[trigger] heap@[j], settled) by {}
            assert(6 * settled <= 6 * hw);
            assert(walk_for(g, start, cur, (cost, point)));
            lemma_settle(g, start, goal, vis0, dd0, h0, i, k as int);
        }
        let points = find_adjacent_points(m, point);
        let ghost len0 = heap@.len();
        let mut n: usize = 0;
        while n < points.len()
            invariant
                costs_fit(g),
                g == m@,
                is_cell(g, start),
                hw == width(g) * height(g),
                visited@.len() == hw,
                dd.len() == hw,
                settled == hw - count_false(visited@),
                1 <= settled <= hw,
                0 <= cost <= 6 * (settled - 1),
                in_grid(g, point.x as int, point.y as int),
                points@ == adjacent(g, point),
                n <= points@.len(),
                heap@.len() == len0 + n,
                forall|i: int| 0 <= i < heap@.len() ==> entry_ok(g, #[trigger] heap@[i], settled),
                walks.len() == heap@.len(),
                forall|i: int| 0 <= i < heap@.len() ==> walk_for(g, start, #[trigger] walks[i], heap@[i]),
                walk_for(g, start, cur, (cost, point)),
                i32::MIN < point.x < i32::MAX,
                i32::MIN < point.y < i32::MAX,
                frontier_covers(g, vis0, visited@, dd, heap@),
                settled_at(g, visited@, start) || covered(heap@, start, 0),
                forall|j: int|
                    0 <= j < n ==> covered(
                        heap@,
                        #[trigger] points@[j],
                        cost + step_cost(digit_of(point.value), digit_of(points@[j].value)),
                    ),
            decreases points.len() - n,
        {
            let next = points[n];
            let step = compute_cost(point, next);
            proof {
                lemma_cost_range(point.value, next.value);
                lemma_dims(g);
                lemma_adjacent_ok(g, point, n as int);
                assert(entry_ok(g, (0, next), settled));
            }
            let ghost h1 = heap@;
            heap.push((cost + step, next));
            proof {
                let nw = cur.push(next);
                assert(nw.drop_last() =~= cur);
                assert(nw[nw.len() - 2] == point);
                assert(is_walk(g, nw)) by {
                    assert forall|k: int| 0 <= k < nw.len() - 1 implies next_to(#[trigger] nw[k], nw[k + 1])
                        && passable(g, nw[k + 1].x as int, nw[k + 1].y as int) by {
                        if k < nw.len() - 2 {
                            assert(nw[k] == cur[k] && nw[k + 1] == cur[k + 1]);
                        }
                    }
                }
                let w1 = walks;
                walks = walks.push(nw);
                assert forall|j: int| 0 <= j < heap@.len() implies walk_for(g, start, #[trigger] walks[j], heap@[j]) by {
                    if j < h1.len() {
                        assert(walks[j] == w1[j] && heap@[j] == h1[j]);
                    }
                }
                let e = heap@[h1.len() as int];
                assert(heap@ == h1.push(e));
                lemma_push_keeps(g, vis0, visited@, dd, h1, e, start, point, cost as int, points@, n as int);
            }
            n = n + 1;
        }
        proof {
            lemma_close_point(g, vis0, visited@, dd, heap@, point, cost as int, points@, k as int);
        }
    }
    proof {
        assert(heap@ =~= Seq::<(i32, TerrainPoint)>::empty());
        assert forall|wk: Seq<TerrainPoint>| #[trigger] is_walk(g, wk) && wk[0] == start implies wk.last().value != goal by {
            lemma_walk_closed(g, start, visited@, dd, wk);
            assert(is_cell(g, wk[wk.len() - 1]));
        }
    }
    -1
}

} // verus!
