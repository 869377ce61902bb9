use vstd::prelude::*;
use crate::coord::Coord2;
use crate::grid::{at, count_false, flat, grid_ok, height, in_grid, is_rect, width, lemma_flat_in_range, lemma_flat_injective, lemma_count_false_all, lemma_count_false_bound, lemma_count_false_set, lemma_dims};

verus! {

/// How many times `c` occurs in `row`.
pub open spec fn count_row(row: Seq<char>, c: char) -> nat
    decreases row.len(),
{
    if row.len() == 0 {
        0
    } else {
        count_row(row.drop_last(), c) + if row.last() == c {
            1nat
        } else {
            0nat
        }
    }
}

/// How many cells of the grid hold `c`.
pub open spec fn count_grid(m: Seq<Vec<char>>, c: char) -> nat
    decreases m.len(),
{
    if m.len() == 0 {
        0
    } else {
        count_grid(m.drop_last(), c) + count_row(m.last()@, c)
    }
}

/// A cell that can be entered: inside the grid and not a wall.
pub open spec fn open_cell(m: Seq<Vec<char>>, x: int, y: int) -> bool {
    in_grid(m, x, y) && at(m, x, y) != '#'
}

pub open spec fn on_border(m: Seq<Vec<char>>, x: int, y: int) -> bool {
    x == 0 || x == width(m) - 1 || y == 0 || y == height(m) - 1
}

/// A cell from which a search may start: an empty cell, on the border when `on_edges` holds.
pub open spec fn start_cell(m: Seq<Vec<char>>, x: int, y: int, on_edges: bool) -> bool {
    in_grid(m, x, y) && at(m, x, y) == '.' && (!on_edges || on_border(m, x, y))
}

proof fn lemma_count_row_bound(row: Seq<char>, c: char)
    ensures
        count_row(row, c) <= row.len(),
    decreases row.len(),
{
    if row.len() > 0 {
        lemma_count_row_bound(row.drop_last(), c);
    }
}

/// Counts the cells of the grid that hold `character`.
pub fn count(m: &Vec<Vec<char>>, character: char) -> (r: usize)
    requires
        grid_ok(m@),
    ensures
        r == count_grid(m@, character),
{
    let ghost w = width(m@);
    let mut total: usize = 0;
    let mut y: usize = 0;
    while y < m.len()
        invariant
            grid_ok(m@),
            w == width(m@),
            y <= m.len(),
            total == count_grid(m@.take(y as int), character),
            total <= y * w,
        decreases m.len() - y,
    {
        let row = &m[y];
        let mut x: usize = 0;
        let mut in_row: usize = 0;
        proof {
            assert(m@.take(y as int) =~= m@.take(y as int + 1).drop_last());
            assert(y * w + w <= w * m.len()) by (nonlinear_arith)
                requires
                    y < m.len(),
                    0 <= w,
            ;
            assert(row@.len() == w);
        }
        while x < row.len()
            invariant
                x <= row@.len(),
                row@.len() == w,
                w <= i32::MAX,
                in_row == count_row(row@.take(x as int), character),
                in_row <= x,
            decreases row.len() - x,
        {
            proof {
                assert(row@.take(x as int) =~= row@.take(x as int + 1).drop_last());
            }
            if row[x] == character {
                in_row = in_row + 1;
            }
            x = x + 1;
        }
        proof {
            assert(row@.take(x as int) =~= row@);
            assert(m@.take(y as int + 1).last() == m@[y as int]);
        }
        assert(y * w + w == (y + 1) * w) by (nonlinear_arith);
        total = total + in_row;
        y = y + 1;
    }
    proof {
        assert(m@.take(y as int) =~= m@);
    }
    total
}

/// Whether `point` lies in the grid on a cell that is not a wall.
pub fn is_valid(m: &Vec<Vec<char>>, point: Coord2) -> (r: bool)
    requires
        is_rect(m@),
    ensures
        r == open_cell(m@, point.x as int, point.y as int),
{
    if point.x < 0 || point.x as usize >= m[0].len() {
        return false;
    }
    if point.y < 0 || point.y as usize >= m.len() {
        return false;
    }
    m[point.y as usize][point.x as usize] != '#'
}

/// The empty cells of the grid, only those on its border when `on_edges` holds, in row-major
/// order.
pub fn find_starts(m: &Vec<Vec<char>>, on_edges: bool) -> (r: Vec<Coord2>)
    requires
        grid_ok(m@),
    ensures
        r@.no_duplicates(),
        forall|i: int|
            0 <= i < r@.len() ==> start_cell(m@, #[trigger] r@[i].x as int, r@[i].y as int, on_edges),
        forall|x: int, y: int|
            start_cell(m@, x, y, on_edges) ==> #[trigger] r@.contains(
                Coord2 { x: x as i32, y: y as i32 },
            ),
{
    let ghost g = m@;
    let mut starts: Vec<Coord2> = Vec::new();
    let h = m.len();
    let w = m[0].len();
    proof {
        lemma_dims(g);
    }
    let mut y: usize = 0;
    while y < h
        invariant
            grid_ok(g),
            g == m@,
            h == height(g),
            w == width(g),
            w <= i32::MAX,
            h <= i32::MAX,
            y <= h,
            starts@.no_duplicates(),
            forall|i: int|
                0 <= i < starts@.len() ==> start_cell(
                    g,
                    (#[trigger] starts@[i]).x as int,
                    starts@[i].y as int,
                    on_edges,
                ) && starts@[i].y < y,
            forall|xx: int, yy: int|
                start_cell(g, xx, yy, on_edges) && yy < y ==> #[trigger] starts@.contains(
                    Coord2 { x: xx as i32, y: yy as i32 },
                ),
        decreases h - y,
    {
        let mut x: usize = 0;
        while x < w
            invariant
                grid_ok(g),
                g == m@,
                h == height(g),
                w == width(g),
                w <= i32::MAX,
                h <= i32::MAX,
                y < h,
                x <= w,
                starts@.no_duplicates(),
                forall|i: int|
                    0 <= i < starts@.len() ==> start_cell(
                        g,
                        (#[trigger] starts@[i]).x as int,
                        starts@[i].y as int,
                        on_edges,
                    ) && (starts@[i].y < y || (starts@[i].y == y && starts@[i].x < x)),
                forall|xx: int, yy: int|
                    start_cell(g, xx, yy, on_edges) && (yy < y || (yy == y && xx < x))
                        ==> #[trigger] starts@.contains(Coord2 { x: xx as i32, y: yy as i32 }),
            decreases w - x,
        {
            let skip = on_edges && x != 0 && x != w - 1 && y != 0 && y != h - 1;
            if !skip && m[y][x] == '.' {
                let c = Coord2 { x: x as i32, y: y as i32 };
                proof {
                    assert(!starts@.contains(c)) by {
                        if starts@.contains(c) {
                            let i = choose|i: int| 0 <= i < starts@.len() && starts@[i] == c;
                            assert(start_cell(g, starts@[i].x as int, starts@[i].y as int, on_edges));
                        }
                    }
                }
                let ghost before = starts@;
                starts.push(c);
                proof {
                    assert forall|xx: int, yy: int|
                        start_cell(g, xx, yy, on_edges) && (yy < y || (yy == y && xx < x + 1))
                            implies #[trigger] starts@.contains(
                            Coord2 { x: xx as i32, y: yy as i32 },
                        ) by {
                        if yy == y && xx == x {
                            assert(starts@[starts@.len() - 1] == c);
                        } else {
                            let p = Coord2 { x: xx as i32, y: yy as i32 };
                            assert(before.contains(p));
                            let i = choose|i: int| 0 <= i < before.len() && before[i] == p;
                            assert(starts@[i] == p);
                        }
                    }
                }
            }
            x = x + 1;
        }
        y = y + 1;
    }
    starts
}

/// Two cells one unit apart along one axis.
pub open spec fn next_cell(p: Coord2, c: Coord2) -> bool {
    let dx = p.x - c.x;
    let dy = p.y - c.y;
    (dx == 0 && (dy == 1 || dy == -1)) || (dy == 0 && (dx == 1 || dx == -1))
}

/// `c` is reached from one of `starts` in `n` steps, each into an open cell.
pub open spec fn reach(m: Seq<Vec<char>>, starts: Seq<Coord2>, c: Coord2, n: nat) -> bool
    decreases n,
{
    if n == 0 {
        starts.contains(c)
    } else {
        open_cell(m, c.x as int, c.y as int) && exists|p: Coord2|
            #[trigger] next_cell(p, c) && reach(m, starts, p, (n - 1) as nat)
    }
}

/// The grid is small enough that a sum of one depth per cell fits an `i32`.
pub open spec fn sums_fit(m: Seq<Vec<char>>) -> bool {
    grid_ok(m) && (width(m) * height(m)) * (width(m) * height(m)) <= i32::MAX
}

/// `n` is the least number of steps in which `c` is reached from `starts`.
pub open spec fn is_dist(m: Seq<Vec<char>>, starts: Seq<Coord2>, c: Coord2, n: nat) -> bool {
    reach(m, starts, c, n) && forall|k: nat| k < n ==> !#[trigger] reach(m, starts, c, k)
}

/// The shortest distance from `starts` to `c`, or -1 when `c` cannot be reached.
pub open spec fn sdist(m: Seq<Vec<char>>, starts: Seq<Coord2>, c: Coord2) -> int {
    if exists|n: nat| #[trigger] reach(m, starts, c, n) {
        (choose|n: nat| is_dist(m, starts, c, n)) as int
    } else {
        -1
    }
}

/// The entry of a per-cell array for cell `c`.
pub open spec fn dval(m: Seq<Vec<char>>, dd: Seq<i32>, c: Coord2) -> int {
    dd[flat(m, c.x as int, c.y as int)] as int
}

pub open spec fn in_grid_c(m: Seq<Vec<char>>, c: Coord2) -> bool {
    in_grid(m, c.x as int, c.y as int)
}

proof fn lemma_min_dist(m: Seq<Vec<char>>, starts: Seq<Coord2>, c: Coord2, n: nat)
    requires
        reach(m, starts, c, n),
    ensures
        exists|k: nat| k <= n && is_dist(m, starts, c, k),
    decreases n,
{
    if exists|k: nat| k < n && #[trigger] reach(m, starts, c, k) {
        let k = choose|k: nat| k < n && #[trigger] reach(m, starts, c, k);
        lemma_min_dist(m, starts, c, k);
    } else {
        assert(is_dist(m, starts, c, n));
    }
}

/// `sdist` is the least number of steps, when there is one.
proof fn lemma_sdist(m: Seq<Vec<char>>, starts: Seq<Coord2>, c: Coord2, n: nat)
    requires
        is_dist(m, starts, c, n),
    ensures
        sdist(m, starts, c) == n,
{
    lemma_min_dist(m, starts, c, n);
    let k = choose|k: nat| is_dist(m, starts, c, k);
    if k < n {
        assert(!reach(m, starts, c, k));
    } else if n < k {
        assert(!reach(m, starts, c, n));
    }
}

/// A per-cell array in which every reached cell is reached in its number of steps, every start
/// holds 0, and each open neighbour of a reached cell is reached in at most one step more.
pub open spec fn dist_ok(m: Seq<Vec<char>>, starts: Seq<Coord2>, dd: Seq<i32>) -> bool {
    &&& dd.len() == width(m) * height(m)
    &&& forall|c: Coord2|
        in_grid_c(m, c) && #[trigger] dval(m, dd, c) >= 0 ==> reach(m, starts, c, dval(m, dd, c) as nat)
    &&& forall|i: int| 0 <= i < starts.len() ==> dval(m, dd, #[trigger] starts[i]) == 0
    &&& forall|a: Coord2, b: Coord2|
        in_grid_c(m, a) && dval(m, dd, a) >= 0 && #[trigger] next_cell(a, b) && open_cell(
            m,
            b.x as int,
            b.y as int,
        ) ==> dval(m, dd, b) >= 0 && dval(m, dd, b) <= dval(m, dd, a) + 1
}

proof fn lemma_reach_bound(m: Seq<Vec<char>>, starts: Seq<Coord2>, dd: Seq<i32>, c: Coord2, n: nat)
    requires
        grid_ok(m),
        forall|i: int| 0 <= i < starts.len() ==> in_grid_c(m, #[trigger] starts[i]),
        dist_ok(m, starts, dd),
        reach(m, starts, c, n),
    ensures
        in_grid_c(m, c),
        0 <= dval(m, dd, c) <= n,
    decreases n,
{
    if n == 0 {
        let i = choose|i: int| 0 <= i < starts.len() && starts[i] == c;
        assert(in_grid_c(m, starts[i]));
    } else {
        let p = choose|p: Coord2| #[trigger] next_cell(p, c) && reach(m, starts, p, (n - 1) as nat);
        lemma_reach_bound(m, starts, dd, p, (n - 1) as nat);
    }
}

/// An array that meets `dist_ok` holds the shortest distance of every cell, and -1 for the
/// cells that cannot be reached.
pub proof fn lemma_dist_exact(m: Seq<Vec<char>>, starts: Seq<Coord2>, dd: Seq<i32>, c: Coord2)
    requires
        grid_ok(m),
        forall|i: int| 0 <= i < starts.len() ==> in_grid_c(m, #[trigger] starts[i]),
        dist_ok(m, starts, dd),
        in_grid_c(m, c),
        dval(m, dd, c) >= -1,
    ensures
        dval(m, dd, c) == sdist(m, starts, c),
{
    if dval(m, dd, c) >= 0 {
        let n = dval(m, dd, c) as nat;
        assert forall|k: nat| k < n implies !#[trigger] reach(m, starts, c, k) by {
            if reach(m, starts, c, k) {
                lemma_reach_bound(m, starts, dd, c, k);
            }
        }
        lemma_sdist(m, starts, c, n);
    } else {
        assert forall|n: nat| !#[trigger] reach(m, starts, c, n) by {
            if reach(m, starts, c, n) {
                lemma_reach_bound(m, starts, dd, c, n);
            }
        }
    }
}

/// Breadth-first search from all of `starts` at once over the open cells: the depth of each
/// cell, which is its shortest distance from `starts`, or -1 where it cannot be reached.
pub fn distances(m: &Vec<Vec<char>>, starts: &Vec<Coord2>) -> (r: Vec<i32>)
    requires
        grid_ok(m@),
        forall|i: int| 0 <= i < starts@.len() ==> in_grid_c(m@, #[trigger] starts@[i]),
    ensures
        r@.len() == width(m@) * height(m@),
        forall|c: Coord2| in_grid_c(m@, c) ==> #[trigger] dval(m@, r@, c) == sdist(m@, starts@, c),
        forall|c: Coord2| in_grid_c(m@, c) ==> #[trigger] dval(m@, r@, c) < width(m@) * height(m@),
{
    let ghost g = m@;
    proof {
        lemma_dims(g);
    }
    let w = m[0].len();
    let hw = w * m.len();
    let mut seen: Vec<bool> = Vec::new();
    let mut dist: Vec<i32> = Vec::new();
    let mut k: usize = 0;
    while k < hw
        invariant
            k <= hw,
            seen@ == Seq::new(k as nat, |i: int| false),
            dist@ == Seq::new(k as nat, |i: int| -1i32),
        decreases hw - k,
    {
        seen.push(false);
        dist.push(-1);
        k = k + 1;
        proof {
            assert(seen@ =~= Seq::new(k as nat, |i: int| false));
            assert(dist@ =~= Seq::new(k as nat, |i: int| -1i32));
        }
    }
    proof {
        lemma_count_false_all(hw as nat);
        assert forall|c: Coord2| in_grid_c(g, c) implies (seen@[flat(g, c.x as int, c.y as int)] <==> #[trigger] dval(g, dist@, c) >= 0)
            && dval(g, dist@, c) >= -1 && dval(g, dist@, c) == -1 by {
            lemma_flat_in_range(g, c.x as int, c.y as int);
        }
    }
    let mut queue: Vec<Coord2> = Vec::new();
    let mut s: usize = 0;
    while s < starts.len()
        invariant
            grid_ok(g),
            g == m@,
            w == width(g),
            hw == width(g) * height(g),
            forall|i: int| 0 <= i < starts@.len() ==> in_grid_c(g, #[trigger] starts@[i]),
            s <= starts@.len(),
            seen@.len() == hw,
            dist@.len() == hw,
            queue@.len() + count_false(seen@) == hw,
            forall|i: int|
                0 <= i < queue@.len() ==> in_grid_c(g, #[trigger] queue@[i]) && dval(g, dist@, queue@[i]) == 0,
            forall|c: Coord2|
                in_grid_c(g, c) ==> (seen@[flat(g, c.x as int, c.y as int)] <==> #[trigger] dval(g, dist@, c) >= 0)
                    && dval(g, dist@, c) >= -1,
            forall|c: Coord2| in_grid_c(g, c) && #[trigger] dval(g, dist@, c) >= 0 ==> dval(g, dist@, c) == 0
                && reach(g, starts@, c, 0) && exists|i: int| 0 <= i < queue@.len() && queue@[i] == c,
            forall|i: int| 0 <= i < s ==> dval(g, dist@, #[trigger] starts@[i]) == 0,
        decreases starts.len() - s,
    {
        let c = starts[s];
        proof {
            lemma_flat_in_range(g, c.x as int, c.y as int);
        }
        let k = c.y as usize * w + c.x as usize;
        if !seen[k] {
            let ghost q0 = queue@;
            let ghost d0 = dist@;
            let ghost s0 = seen@;
            proof {
                lemma_count_false_set(seen@, k as int);
                lemma_count_false_bound(seen@.update(k as int, true));
            }
            seen.set(k, true);
            dist.set(k, 0);
            queue.push(c);
            proof {
                assert(starts@[s as int] == c);
                assert forall|c2: Coord2| in_grid_c(g, c2) implies (seen@[flat(g, c2.x as int, c2.y as int)] <==> #[trigger] dval(g, dist@, c2) >= 0)
                    && dval(g, dist@, c2) >= -1 by {
                    lemma_flat_in_range(g, c2.x as int, c2.y as int);
                    if flat(g, c2.x as int, c2.y as int) != k {
                        assert(s0[flat(g, c2.x as int, c2.y as int)] <==> dval(g, d0, c2) >= 0);
                        assert(dval(g, d0, c2) >= -1);
                    }
                }
                assert forall|c2: Coord2| in_grid_c(g, c2) && #[trigger] dval(g, dist@, c2) >= 0 implies dval(g, dist@, c2) == 0
                    && reach(g, starts@, c2, 0) && exists|i: int| 0 <= i < queue@.len() && queue@[i] == c2 by {
                    lemma_flat_in_range(g, c2.x as int, c2.y as int);
                    if flat(g, c2.x as int, c2.y as int) == k {
                        lemma_flat_injective(g, c2.x as int, c2.y as int, c.x as int, c.y as int);
                        assert(queue@[q0.len() as int] == c2);
                    } else {
                        assert(dval(g, d0, c2) >= 0);
                        let i = choose|i: int| 0 <= i < q0.len() && q0[i] == c2;
                        assert(queue@[i] == c2);
                    }
                }
                assert forall|i: int| 0 <= i < queue@.len() implies in_grid_c(g, #[trigger] queue@[i]) && dval(g, dist@, queue@[i]) == 0 by {
                    if i < q0.len() {
                        assert(queue@[i] == q0[i]);
                        assert(dval(g, d0, q0[i]) == 0);
                        lemma_flat_in_range(g, q0[i].x as int, q0[i].y as int);
                        assert(dval(g, d0, q0[i]) >= 0);
                    }
                }
                assert forall|i: int| 0 <= i < s + 1 implies dval(g, dist@, #[trigger] starts@[i]) == 0 by {
                    lemma_flat_in_range(g, starts@[i].x as int, starts@[i].y as int);
                    if i < s {
                        assert(dval(g, d0, starts@[i]) == 0);
                    }
                }
            }
        } else {
            proof {
                assert(dval(g, dist@, c) >= 0);
                assert(starts@[s as int] == c);
            }
        }
        s = s + 1;
    }
    let mut head: usize = 0;
    proof {
        assert forall|c: Coord2| in_grid_c(g, c) && #[trigger] dval(g, dist@, c) >= 0 implies reach(g, starts@, c, dval(g, dist@, c) as nat) by {}
    }
    while head < queue.len()
        invariant
            grid_ok(g),
            g == m@,
            w == width(g),
            hw == width(g) * height(g),
            forall|i: int| 0 <= i < starts@.len() ==> in_grid_c(g, #[trigger] starts@[i]),
            forall|i: int| 0 <= i < starts@.len() ==> dval(g, dist@, #[trigger] starts@[i]) == 0,
            seen@.len() == hw,
            dist@.len() == hw,
            queue@.len() + count_false(seen@) == hw,
            head <= queue@.len(),
            forall|i: int|
                0 <= i < queue@.len() ==> in_grid_c(g, #[trigger] queue@[i]) && 0 <= dval(g, dist@, queue@[i]) <= i,
            forall|i: int, j: int|
                0 <= i <= j < queue@.len() ==> dval(g, dist@, #[trigger] queue@[i]) <= dval(g, dist@, #[trigger] queue@[j]),
            forall|c: Coord2|
                in_grid_c(g, c) ==> (seen@[flat(g, c.x as int, c.y as int)] <==> #[trigger] dval(g, dist@, c) >= 0)
                    && dval(g, dist@, c) >= -1,
            forall|c: Coord2|
                in_grid_c(g, c) && #[trigger] dval(g, dist@, c) >= 0 ==> reach(g, starts@, c, dval(g, dist@, c) as nat)
                    && (exists|i: int| 0 <= i < queue@.len() && queue@[i] == c)
                    && dval(g, dist@, c) <= (if head > 0 { dval(g, dist@, queue@[head - 1]) + 1 } else { 0 }),
            forall|i: int, b: Coord2|
                0 <= i < head && #[trigger] next_cell(queue@[i], b) && open_cell(g, b.x as int, b.y as int)
                    ==> dval(g, dist@, b) >= 0 && dval(g, dist@, b) <= dval(g, dist@, queue@[i]) + 1,
        decreases 2 * count_false(seen@) + queue@.len() - head,
    {
        let a = queue[head];
        proof {
            lemma_flat_in_range(g, a.x as int, a.y as int);
            lemma_dims(g);
        }
        let d = dist[a.y as usize * w + a.x as usize];
        proof {
            assert(d == dval(g, dist@, queue@[head as int]));
            if head > 0 {
                assert(dval(g, dist@, queue@[head - 1]) <= dval(g, dist@, queue@[head as int]));
            }
            assert(d <= head);
        }
        head = head + 1;
        let nexts = [
            Coord2::new(a.x - 1, a.y),
            Coord2::new(a.x + 1, a.y),
            Coord2::new(a.x, a.y + 1),
            Coord2::new(a.x, a.y - 1),
        ];
        let ghost len0 = queue@.len();
        let ghost fc0 = count_false(seen@);
        let mut n: usize = 0;
        while n < 4
            invariant
                grid_ok(g),
                g == m@,
                w == width(g),
                hw == width(g) * height(g),
                forall|i: int| 0 <= i < starts@.len() ==> in_grid_c(g, #[trigger] starts@[i]),
                forall|i: int| 0 <= i < starts@.len() ==> dval(g, dist@, #[trigger] starts@[i]) == 0,
                seen@.len() == hw,
                dist@.len() == hw,
                queue@.len() + count_false(seen@) == hw,
                len0 <= queue@.len(),
                2 * count_false(seen@) + queue@.len() <= 2 * fc0 + len0,
                1 <= head <= len0,
                queue@[head - 1] == a,
                in_grid_c(g, a),
                d == dval(g, dist@, a),
                0 <= d < head,
                n <= 4,
                nexts@ == seq![
                    Coord2 { x: (a.x - 1) as i32, y: a.y },
                    Coord2 { x: (a.x + 1) as i32, y: a.y },
                    Coord2 { x: a.x, y: (a.y + 1) as i32 },
                    Coord2 { x: a.x, y: (a.y - 1) as i32 },
                ],
                forall|i: int|
                    0 <= i < queue@.len() ==> in_grid_c(g, #[trigger] queue@[i]) && 0 <= dval(g, dist@, queue@[i]) <= i,
                forall|i: int, j: int|
                    0 <= i <= j < queue@.len() ==> dval(g, dist@, #[trigger] queue@[i]) <= dval(g, dist@, #[trigger] queue@[j]),
                forall|c: Coord2|
                    in_grid_c(g, c) ==> (seen@[flat(g, c.x as int, c.y as int)] <==> #[trigger] dval(g, dist@, c) >= 0)
                        && dval(g, dist@, c) >= -1,
                forall|c: Coord2|
                    in_grid_c(g, c) && #[trigger] dval(g, dist@, c) >= 0 ==> reach(g, starts@, c, dval(g, dist@, c) as nat)
                        && (exists|i: int| 0 <= i < queue@.len() && queue@[i] == c)
                        && dval(g, dist@, c) <= d + 1,
                forall|i: int, b: Coord2|
                    0 <= i < head - 1 && #[trigger] next_cell(queue@[i], b) && open_cell(g, b.x as int, b.y as int)
                        ==> dval(g, dist@, b) >= 0 && dval(g, dist@, b) <= dval(g, dist@, queue@[i]) + 1,
                forall|j: int|
                    0 <= j < n && open_cell(g, (#[trigger] nexts@[j]).x as int, nexts@[j].y as int)
                        ==> dval(g, dist@, nexts@[j]) >= 0 && dval(g, dist@, nexts@[j]) <= d + 1,
            decreases 4 - n,
        {
            let b = nexts[n];
            if is_valid(m, b) {
                proof {
                    lemma_flat_in_range(g, b.x as int, b.y as int);
                }
                let kb = b.y as usize * w + b.x as usize;
                if !seen[kb] {
                    let ghost q0 = queue@;
                    let ghost d0 = dist@;
                    let ghost s0 = seen@;
                    proof {
                        lemma_count_false_set(seen@, kb as int);
                        lemma_count_false_bound(seen@.update(kb as int, true));
                        assert(dval(g, d0, b) == -1);
                        lemma_dims(g);
                        assert(b == nexts@[n as int]);
                        assert(next_cell(a, b));
                        assert(reach(g, starts@, b, (d + 1) as nat));
                    }
                    seen.set(kb, true);
                    dist.set(kb, d + 1);
                    queue.push(b);
                    proof {
                        assert forall|c: Coord2| in_grid_c(g, c) implies #[trigger] dval(g, dist@, c) == (if flat(g, c.x as int, c.y as int) == kb { d + 1 } else { dval(g, d0, c) }) by {
                            lemma_flat_in_range(g, c.x as int, c.y as int);
                        }
                        assert forall|c: Coord2| in_grid_c(g, c) implies flat(g, c.x as int, c.y as int) == kb ==> c == b by {
                            if flat(g, c.x as int, c.y as int) == kb {
                                lemma_flat_injective(g, c.x as int, c.y as int, b.x as int, b.y as int);
                            }
                        }
                        assert forall|i: int| 0 <= i < queue@.len() implies in_grid_c(g, #[trigger] queue@[i]) && 0 <= dval(g, dist@, queue@[i]) <= i by {
                            if i < q0.len() {
                                assert(queue@[i] == q0[i]);
                                lemma_flat_in_range(g, q0[i].x as int, q0[i].y as int);
                                assert(dval(g, d0, q0[i]) >= 0);
                            }
                        }
                        assert forall|i: int, j: int|
                            0 <= i <= j < queue@.len() implies dval(g, dist@, #[trigger] queue@[i]) <= dval(g, dist@, #[trigger] queue@[j]) by {
                            if j < q0.len() {
                                assert(queue@[i] == q0[i] && queue@[j] == q0[j]);
                                lemma_flat_in_range(g, q0[i].x as int, q0[i].y as int);
                                lemma_flat_in_range(g, q0[j].x as int, q0[j].y as int);
                                assert(dval(g, d0, q0[i]) >= 0);
                                assert(dval(g, d0, q0[j]) >= 0);
                            } else if i < q0.len() {
                                assert(queue@[i] == q0[i]);
                                lemma_flat_in_range(g, q0[i].x as int, q0[i].y as int);
                                assert(dval(g, d0, q0[i]) >= 0);
                            }
                        }
                        assert forall|c: Coord2|
                            in_grid_c(g, c) implies (seen@[flat(g, c.x as int, c.y as int)] <==> #[trigger] dval(g, dist@, c) >= 0)
                                && dval(g, dist@, c) >= -1 by {
                            lemma_flat_in_range(g, c.x as int, c.y as int);
                            assert(s0[flat(g, c.x as int, c.y as int)] <==> dval(g, d0, c) >= 0);
                            assert(dval(g, d0, c) >= -1);
                        }
                        assert forall|c: Coord2|
                            in_grid_c(g, c) && #[trigger] dval(g, dist@, c) >= 0 implies reach(g, starts@, c, dval(g, dist@, c) as nat)
                                && (exists|i: int| 0 <= i < queue@.len() && queue@[i] == c)
                                && dval(g, dist@, c) <= d + 1 by {
                            if c == b {
                                assert(queue@[q0.len() as int] == c);
                            } else {
                                assert(dval(g, d0, c) >= 0);
                                let i = choose|i: int| 0 <= i < q0.len() && q0[i] == c;
                                assert(queue@[i] == c);
                            }
                        }
                        assert forall|i: int| 0 <= i < starts@.len() implies dval(g, dist@, #[trigger] starts@[i]) == 0 by {
                            assert(dval(g, d0, starts@[i]) == 0);
                        }
                        assert forall|i: int, b2: Coord2|
                            0 <= i < head - 1 && #[trigger] next_cell(queue@[i], b2) && open_cell(g, b2.x as int, b2.y as int)
                                implies dval(g, dist@, b2) >= 0 && dval(g, dist@, b2) <= dval(g, dist@, queue@[i]) + 1 by {
                            assert(queue@[i] == q0[i]);
                            assert(next_cell(q0[i], b2));
                            lemma_flat_in_range(g, q0[i].x as int, q0[i].y as int);
                            assert(dval(g, d0, q0[i]) >= 0);
                            assert(dval(g, d0, b2) >= 0);
                        }
                        assert forall|j: int|
                            0 <= j < n + 1 && open_cell(g, (#[trigger] nexts@[j]).x as int, nexts@[j].y as int)
                                implies dval(g, dist@, nexts@[j]) >= 0 && dval(g, dist@, nexts@[j]) <= d + 1 by {
                            if j < n {
                                assert(dval(g, d0, nexts@[j]) >= 0);
                            }
                        }
                    }
                } else {
                    proof {
                        assert(dval(g, dist@, b) >= 0);
                    }
                }
            }
            n = n + 1;
        }
        proof {
            assert forall|i: int, b: Coord2|
                0 <= i < head && #[trigger] next_cell(queue@[i], b) && open_cell(g, b.x as int, b.y as int)
                    implies dval(g, dist@, b) >= 0 && dval(g, dist@, b) <= dval(g, dist@, queue@[i]) + 1 by {
                if i == head - 1 {
                    if b.x == a.x - 1 && b.y == a.y {
                        assert(b == nexts@[0]);
                    } else if b.x == a.x + 1 && b.y == a.y {
                        assert(b == nexts@[1]);
                    } else if b.x == a.x && b.y == a.y + 1 {
                        assert(b == nexts@[2]);
                    } else {
                        assert(b == nexts@[3]);
                    }
                }
            }
        }
    }
    proof {
        assert(dist_ok(g, starts@, dist@)) by {
            assert forall|a: Coord2, b: Coord2|
                in_grid_c(g, a) && dval(g, dist@, a) >= 0 && #[trigger] next_cell(a, b) && open_cell(g, b.x as int, b.y as int)
                    implies dval(g, dist@, b) >= 0 && dval(g, dist@, b) <= dval(g, dist@, a) + 1 by {
                let i = choose|i: int| 0 <= i < queue@.len() && queue@[i] == a;
                assert(next_cell(queue@[i], b));
            }
        }
        assert forall|c: Coord2| in_grid_c(g, c) implies #[trigger] dval(g, dist@, c) == sdist(g, starts@, c)
            && dval(g, dist@, c) < hw by {
            lemma_dist_exact(g, starts@, dist@, c);
            if dval(g, dist@, c) >= 0 {
                let i = choose|i: int| 0 <= i < queue@.len() && queue@[i] == c;
                assert(0 <= dval(g, dist@, queue@[i]) <= i);
            }
        }
    }
    dist
}

/// How many of the first `x` cells of row `y` hold `'P'` at shortest distance `e`.
pub open spec fn row_layer(m: Seq<Vec<char>>, starts: Seq<Coord2>, y: int, x: int, e: int) -> nat
    decreases x,
{
    if x <= 0 {
        0
    } else {
        row_layer(m, starts, y, x - 1, e) + if at(m, x - 1, y) == 'P' && sdist(
            m,
            starts,
            Coord2 { x: (x - 1) as i32, y: y as i32 },
        ) == e {
            1nat
        } else {
            0nat
        }
    }
}

/// How many cells of the first `y` rows hold `'P'` at shortest distance `e`.
pub open spec fn grid_layer(m: Seq<Vec<char>>, starts: Seq<Coord2>, y: int, e: int) -> nat
    decreases y,
{
    if y <= 0 {
        0
    } else {
        grid_layer(m, starts, y - 1, e) + row_layer(m, starts, y - 1, width(m), e)
    }
}

/// How many targets lie at shortest distance exactly `e` from `starts`.
pub open spec fn layer(m: Seq<Vec<char>>, starts: Seq<Coord2>, e: int) -> nat {
    grid_layer(m, starts, height(m), e)
}

/// Taking the targets in order of distance from depth `e` on, `acc` of them already taken with
/// depths summing to `tot`: the depth of the `n`-th target and the sum of the depths of the first
/// `n`, or `None` when fewer than `n` targets are reachable.
pub open spec fn answer_from(m: Seq<Vec<char>>, starts: Seq<Coord2>, n: int, e: int, acc: int, tot: int) -> Option<(int, int)>
    decreases width(m) * height(m) - e,
{
    if e >= width(m) * height(m) || e < 0 {
        None
    } else if acc + layer(m, starts, e) >= n {
        Some((e, tot + (n - acc) * e))
    } else {
        answer_from(m, starts, n, e + 1, acc + layer(m, starts, e), tot + layer(m, starts, e) * e)
    }
}

/// With the reachable targets ranked by shortest distance from `starts`, the distance of the
/// `n`-th and the sum of the distances of the first `n`; `None` when `n` is zero or fewer than
/// `n` targets can be reached. Ties in distance do not change either number.
pub open spec fn answer(m: Seq<Vec<char>>, starts: Seq<Coord2>, n: int) -> Option<(int, int)> {
    if n <= 0 {
        None
    } else {
        answer_from(m, starts, n, 0, 0, 0)
    }
}

proof fn lemma_answer_mono_from(m: Seq<Vec<char>>, starts: Seq<Coord2>, n: int, e: int, acc: int, tot: int)
    requires
        0 <= acc < n,
        answer_from(m, starts, n + 1, e, acc, tot) is Some,
    ensures
        answer_from(m, starts, n, e, acc, tot) is Some,
        depth_of(answer_from(m, starts, n + 1, e, acc, tot)) >= depth_of(answer_from(m, starts, n, e, acc, tot)),
        total_of(answer_from(m, starts, n + 1, e, acc, tot)) == total_of(answer_from(m, starts, n, e, acc, tot))
            + depth_of(answer_from(m, starts, n + 1, e, acc, tot)),
    decreases width(m) * height(m) - e,
{
    let l = layer(m, starts, e) as int;
    if e >= width(m) * height(m) || e < 0 {
    } else if acc + l >= n + 1 {
        assert(tot + (n + 1 - acc) * e == tot + (n - acc) * e + e) by (nonlinear_arith);
    } else if acc + l >= n {
        assert(acc + l == n);
        lemma_answer_stops(m, starts, n + 1, e + 1, n, tot + l * e);
        assert(tot + (n - acc) * e == tot + l * e);
    } else {
        lemma_answer_mono_from(m, starts, n, e + 1, acc + l, tot + l * e);
    }
}

proof fn lemma_answer_stops(m: Seq<Vec<char>>, starts: Seq<Coord2>, n: int, e: int, acc: int, tot: int)
    requires
        acc == n - 1,
        answer_from(m, starts, n, e, acc, tot) is Some,
    ensures
        total_of(answer_from(m, starts, n, e, acc, tot)) == tot + depth_of(answer_from(m, starts, n, e, acc, tot)),
        depth_of(answer_from(m, starts, n, e, acc, tot)) >= e,
    decreases width(m) * height(m) - e,
{
    let l = layer(m, starts, e) as int;
    if e >= width(m) * height(m) || e < 0 {
    } else if acc + l >= n {
        assert((n - acc) * e == e) by (nonlinear_arith)
            requires
                n - acc == 1,
        ;
    } else {
        assert(l == 0);
        assert(l * e == 0) by (nonlinear_arith)
            requires
                l == 0,
        ;
        lemma_answer_stops(m, starts, n, e + 1, acc, tot);
    }
}

/// The depth in a result of `answer`.
pub open spec fn depth_of(r: Option<(int, int)>) -> int {
    match r {
        Some((d, _)) => d,
        None => 0,
    }
}

/// The total in a result of `answer`.
pub open spec fn total_of(r: Option<(int, int)>) -> int {
    match r {
        Some((_, t)) => t,
        None => 0,
    }
}

/// Asking for one more target never returns a smaller depth, and the total grows by exactly the
/// depth of the added target.
pub proof fn lemma_answer_monotone(m: Seq<Vec<char>>, starts: Seq<Coord2>, n: int)
    requires
        1 <= n,
        answer(m, starts, n + 1) is Some,
    ensures
        answer(m, starts, n) is Some,
        depth_of(answer(m, starts, n + 1)) >= depth_of(answer(m, starts, n)),
        total_of(answer(m, starts, n + 1)) == total_of(answer(m, starts, n)) + depth_of(answer(m, starts, n + 1)),
{
    lemma_answer_mono_from(m, starts, n, 0, 0, 0);
}

/// The sum of the first `n` entries of `s`.
pub open spec fn sum_prefix(s: Seq<usize>, n: int) -> int
    decreases n,
{
    if n <= 0 {
        0
    } else {
        sum_prefix(s, n - 1) + s[n - 1] as int
    }
}

proof fn lemma_sum_prefix_update(s: Seq<usize>, i: int, n: int)
    requires
        0 <= i < n <= s.len(),
        s[i] < usize::MAX,
    ensures
        sum_prefix(s.update(i, (s[i] + 1) as usize), n) == sum_prefix(s, n) + 1,
    decreases n,
{
    if n - 1 > i {
        lemma_sum_prefix_update(s, i, n - 1);
    } else {
        lemma_sum_prefix_same(s, s.update(i, (s[i] + 1) as usize), n - 1);
    }
}

proof fn lemma_sum_prefix_same(s: Seq<usize>, t: Seq<usize>, n: int)
    requires
        0 <= n <= s.len(),
        n <= t.len(),
        forall|j: int| 0 <= j < n ==> s[j] == t[j],
    ensures
        sum_prefix(s, n) == sum_prefix(t, n),
    decreases n,
{
    if n > 0 {
        lemma_sum_prefix_same(s, t, n - 1);
    }
}

proof fn lemma_sum_prefix_mono(s: Seq<usize>, a: int, b: int)
    requires
        0 <= a <= b <= s.len(),
    ensures
        sum_prefix(s, a) + (if a < b { s[a] as int } else { 0 }) <= sum_prefix(s, b),
    decreases b - a,
{
    if a < b {
        if a + 1 < b {
            lemma_sum_prefix_mono(s, a + 1, b);
        }
    }
}

/// Breadth-first search from all of `starts` at once, then the targets (`'P'` cells) taken in
/// order of depth: the depth of the `num_p`-th target and the sum of the depths of the first
/// `num_p`, all depths being shortest distances; `None` when `num_p` is zero or fewer than
/// `num_p` targets can be reached.
pub fn solve(m: &Vec<Vec<char>>, starts: &Vec<Coord2>, num_p: usize) -> (r: Option<(i32, i32)>)
    requires
        sums_fit(m@),
        forall|i: int| 0 <= i < starts@.len() ==> in_grid_c(m@, #[trigger] starts@[i]),
    ensures
        r matches Some((d, t)) ==> answer(m@, starts@, num_p as int) == Some((d as int, t as int)),
        r is None ==> answer(m@, starts@, num_p as int) is None,
{
    let ghost g = m@;
    if num_p == 0 {
        return None;
    }
    let dist = distances(m, starts);
    proof {
        lemma_dims(g);
    }
    let w = m[0].len();
    let h = m.len();
    let hw = w * h;
    let mut hist: Vec<usize> = Vec::new();
    let mut k: usize = 0;
    while k < hw
        invariant
            k <= hw,
            hist@ == Seq::new(k as nat, |i: int| 0usize),
        decreases hw - k,
    {
        hist.push(0);
        k = k + 1;
        proof {
            assert(hist@ =~= Seq::new(k as nat, |i: int| 0usize));
        }
    }
    proof {
        assert forall|e: int| 0 <= e < hw implies #[trigger] hist@[e] == grid_layer(g, starts@, 0, e) + row_layer(g, starts@, 0, 0, e) by {}
        lemma_sum_prefix_same(hist@, Seq::new(hw as nat, |i: int| 0usize), hw as int);
        assert(sum_prefix(Seq::new(hw as nat, |i: int| 0usize), hw as int) == 0) by {
            lemma_sum_zero(hw as int);
        }
    }
    let mut cells: usize = 0;
    let mut found: usize = 0;
    let mut y: usize = 0;
    while y < h
        invariant
            sums_fit(g),
            g == m@,
            w == width(g),
            h == height(g),
            hw == w * h,
            w <= i32::MAX,
            h <= i32::MAX,
            y <= h,
            dist@.len() == hw,
            forall|c: Coord2| in_grid_c(g, c) ==> #[trigger] dval(g, dist@, c) == sdist(g, starts@, c),
            forall|c: Coord2| in_grid_c(g, c) ==> #[trigger] dval(g, dist@, c) < hw,
            hist@.len() == hw,
            forall|e: int| 0 <= e < hw ==> #[trigger] hist@[e] == grid_layer(g, starts@, y as int, e),
            cells == y * w,
            found <= cells,
            sum_prefix(hist@, hw as int) == found,
        decreases h - y,
    {
        let mut x: usize = 0;
        proof {
            assert(m@[y as int]@.len() == w);
            assert(y * w + w <= hw) by (nonlinear_arith)
                requires
                    y < h,
                    hw == w * h,
            ;
        }
        while x < w
            invariant
                sums_fit(g),
                g == m@,
                w == width(g),
                h == height(g),
                hw == w * h,
                w <= i32::MAX,
                h <= i32::MAX,
                y < h,
                x <= w,
                m@[y as int]@.len() == w,
                dist@.len() == hw,
                forall|c: Coord2| in_grid_c(g, c) ==> #[trigger] dval(g, dist@, c) == sdist(g, starts@, c),
                forall|c: Coord2| in_grid_c(g, c) ==> #[trigger] dval(g, dist@, c) < hw,
                hist@.len() == hw,
                forall|e: int|
                    0 <= e < hw ==> #[trigger] hist@[e] == grid_layer(g, starts@, y as int, e) + row_layer(
                        g,
                        starts@,
                        y as int,
                        x as int,
                        e,
                    ),
                cells == y * w + x,
                y * w + w <= hw,
                found <= cells,
                sum_prefix(hist@, hw as int) == found,
            decreases w - x,
        {
            let c = Coord2 { x: x as i32, y: y as i32 };
            proof {
                lemma_flat_in_range(g, x as int, y as int);
                assert(in_grid_c(g, c));
            }
            let dv = dist[y * w + x];
            proof {
                assert(dv == dval(g, dist@, c));
            }
            if m[y][x] == 'P' && dv >= 0 {
                let e = dv as usize;
                let ghost h0 = hist@;
                proof {
                    assert(h0[e as int] <= found) by {
                        lemma_sum_prefix_mono(h0, e as int, hw as int);
                        lemma_sum_prefix_nonneg(h0, e as int);
                    }
                }
                hist.set(e, hist[e] + 1);
                proof {
                    lemma_sum_prefix_update(h0, e as int, hw as int);
                    assert forall|e2: int| 0 <= e2 < hw implies #[trigger] hist@[e2] == grid_layer(g, starts@, y as int, e2)
                        + row_layer(g, starts@, y as int, x + 1, e2) by {
                        assert(h0[e2] == grid_layer(g, starts@, y as int, e2) + row_layer(g, starts@, y as int, x as int, e2));
                    }
                }
                found = found + 1;
            } else {
                proof {
                    assert forall|e2: int| 0 <= e2 < hw implies #[trigger] hist@[e2] == grid_layer(g, starts@, y as int, e2)
                        + row_layer(g, starts@, y as int, x + 1, e2) by {
                        assert(sdist(g, starts@, c) == dv);
                    }
                }
            }
            cells = cells + 1;
            x = x + 1;
        }
        proof {
            assert((y + 1) * w == y * w + w) by (nonlinear_arith);
        }
        y = y + 1;
    }
    proof {
        assert(cells == hw) by (nonlinear_arith)
            requires
                cells == y * w,
                y == h,
                hw == w * h,
        ;
    }
    let mut acc: usize = 0;
    let mut tot: i32 = 0;
    let mut e: usize = 0;
    while e < hw
        invariant
            sums_fit(g),
            g == m@,
            hw == width(g) * height(g),
            hist@.len() == hw,
            forall|e2: int| 0 <= e2 < hw ==> #[trigger] hist@[e2] == layer(g, starts@, e2),
            sum_prefix(hist@, hw as int) == found,
            found <= hw,
            e <= hw,
            acc == sum_prefix(hist@, e as int),
            acc < num_p,
            0 <= tot <= acc * e,
            answer(g, starts@, num_p as int) == answer_from(g, starts@, num_p as int, e as int, acc as int, tot as int),
        decreases hw - e,
    {
        proof {
            lemma_sum_prefix_mono(hist@, e as int, hw as int);
            assert(e < hw);
            assert(hw * hw <= i32::MAX);
            assert(acc * e <= hw * hw) by (nonlinear_arith)
                requires
                    acc <= hw,
                    e < hw,
            ;
        }
        let l = hist[e];
        if acc + l >= num_p {
            proof {
                assert(tot + (num_p - acc) * e <= hw * hw) by (nonlinear_arith)
                    requires
                        0 <= tot <= acc * e,
                        num_p - acc <= l,
                        acc + l <= hw,
                        e < hw,
                ;
            }
            let rest = ((num_p - acc) as i32) * (e as i32);
            return Some((e as i32, tot + rest));
        }
        proof {
            assert(tot + l * e <= (acc + l) * (e + 1)) by (nonlinear_arith)
                requires
                    0 <= tot <= acc * e,
                    l >= 0,
                    e >= 0,
            ;
            assert((acc + l) * (e + 1) <= hw * hw) by (nonlinear_arith)
                requires
                    acc + l <= hw,
                    e < hw,
            ;
        }
        tot = tot + (l as i32) * (e as i32);
        acc = acc + l;
        e = e + 1;
    }
    None
}

proof fn lemma_sum_zero(n: int)
    requires
        n >= 0,
    ensures
        sum_prefix(Seq::new(n as nat, |i: int| 0usize), n) == 0,
{
    let s = Seq::new(n as nat, |i: int| 0usize);
    lemma_sum_zero_rec(s, n);
}

proof fn lemma_sum_zero_rec(s: Seq<usize>, k: int)
    requires
        0 <= k <= s.len(),
        forall|j: int| 0 <= j < s.len() ==> s[j] == 0,
    ensures
        sum_prefix(s, k) == 0,
    decreases k,
{
    if k > 0 {
        lemma_sum_zero_rec(s, k - 1);
    }
}

proof fn lemma_sum_prefix_nonneg(s: Seq<usize>, k: int)
    ensures
        sum_prefix(s, k) >= 0,
    decreases k,
{
    if k > 0 {
        lemma_sum_prefix_nonneg(s, k - 1);
    }
}

/// The least total over single starts at each of `cells`, every target required; `None` when
/// `cells` is empty or some start does not reach every target.
pub open spec fn best_total(m: Seq<Vec<char>>, cells: Seq<Coord2>, n: int) -> Option<int>
    decreases cells.len(),
{
    if cells.len() == 0 {
        None
    } else {
        match answer(m, seq![cells.last()], n) {
            None => None,
            Some((_, t)) => if cells.len() == 1 {
                Some(t)
            } else {
                match best_total(m, cells.drop_last(), n) {
                    None => None,
                    Some(b) => Some(if b <= t { b } else { t }),
                }
            },
        }
    }
}

pub open spec fn widen(o: Option<i32>) -> Option<int> {
    match o {
        Some(v) => Some(v as int),
        None => None,
    }
}

proof fn lemma_best_stays_none(m: Seq<Vec<char>>, cells: Seq<Coord2>, n: int, k: int)
    requires
        1 <= k <= cells.len(),
        best_total(m, cells.take(k), n) is None,
    ensures
        best_total(m, cells, n) is None,
    decreases cells.len() - k,
{
    if k < cells.len() {
        assert(cells.take(k + 1).drop_last() =~= cells.take(k));
        lemma_best_stays_none(m, cells, n, k + 1);
    } else {
        assert(cells.take(k) =~= cells);
    }
}

/// `cells` lists each empty cell of the grid once.
pub open spec fn empty_cells(m: Seq<Vec<char>>, cells: Seq<Coord2>) -> bool {
    cells.no_duplicates() && forall|c: Coord2|
        #[trigger] cells.contains(c) <==> start_cell(m, c.x as int, c.y as int, false)
}

/// The least, over single starts at each empty cell, of the sum of the shortest distances to
/// all the targets; `None` when the grid has no empty cell or no target, or some empty cell does
/// not reach every target.
pub fn solve_part_3(m: &Vec<Vec<char>>) -> (r: Option<i32>)
    requires
        sums_fit(m@),
    ensures
        exists|cells: Seq<Coord2>|
            #[trigger] empty_cells(m@, cells) && widen(r) == best_total(m@, cells, count_grid(m@, 'P') as int),
{
    let num_p = count(m, 'P');
    let starts = find_starts(m, false);
    let ghost cs = starts@;
    proof {
        assert forall|c: Coord2| #[trigger] cs.contains(c) <==> start_cell(m@, c.x as int, c.y as int, false) by {
            if cs.contains(c) {
                let i = choose|i: int| 0 <= i < cs.len() && cs[i] == c;
                assert(start_cell(m@, cs[i].x as int, cs[i].y as int, false));
            } else {
                assert(Coord2 { x: (c.x as int) as i32, y: (c.y as int) as i32 } == c);
            }
        }
        assert(empty_cells(m@, cs));
    }
    let mut best: Option<i32> = None;
    let mut i: usize = 0;
    assert(cs.take(0) =~= Seq::<Coord2>::empty());
    while i < starts.len()
        invariant
            sums_fit(m@),
            cs == starts@,
            num_p == count_grid(m@, 'P'),
            forall|j: int|
                0 <= j < starts@.len() ==> start_cell(m@, (#[trigger] starts@[j]).x as int, starts@[j].y as int, false),
            i <= starts@.len(),
            empty_cells(m@, cs),
            i > 0 ==> best is Some,
            widen(best) == best_total(m@, cs.take(i as int), num_p as int),
        decreases starts.len() - i,
    {
        let single = vec![starts[i]];
        proof {
            assert(start_cell(m@, starts@[i as int].x as int, starts@[i as int].y as int, false));
            assert(cs.take(i as int + 1).drop_last() =~= cs.take(i as int));
            assert(cs.take(i as int + 1).last() == starts@[i as int]);
            assert(single@ =~= seq![cs.take(i as int + 1).last()]);
        }
        match solve(m, &single, num_p) {
            Some((_, total)) => {
                best = match best {
                    Some(b) if b <= total => Some(b),
                    _ => Some(total),
                };
            },
            None => {
                proof {
                    lemma_best_stays_none(m@, cs, num_p as int, i as int + 1);
                    assert(empty_cells(m@, cs) && widen(None) == best_total(m@, cs, count_grid(m@, 'P') as int));
                }
                return None;
            },
        }
        i = i + 1;
    }
    proof {
        assert(cs.take(i as int) =~= cs);
        assert(empty_cells(m@, cs) && widen(best) == best_total(m@, cs, count_grid(m@, 'P') as int));
    }
    best
}

} // verus!
