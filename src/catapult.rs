use vstd::prelude::*;
use crate::grid::{at, grid_ok, height, is_rect, width, lemma_dims};

verus! {

/// Division that rounds toward zero, as Rust's integer `/` does, by a positive divisor.
pub open spec fn quot(a: int, b: int) -> int {
    if a >= 0 {
        a / b
    } else {
        -((-a) / b)
    }
}

/// The remainder that goes with `quot`, with the sign of `a`, as Rust's `%`.
pub open spec fn rem(a: int, b: int) -> int {
    a - b * quot(a, b)
}

/// Where a meteor that starts at (x, y) is hit: half of its column, and its height less the
/// half columns it falls meanwhile, rounded up.
pub open spec fn hit_of(x: int, y: int) -> (int, int) {
    (quot(x, 2), y - quot(x, 2) - rem(x, 2))
}

/// The rank of a target hit at (x, y) by a catapult at height `origin_y`: with `d` the sum of
/// the height difference and the column, the segment `d % 3 + 1` times the power `d / 3`.
pub open spec fn rank3(x: int, y: int, origin_y: int) -> int {
    let diff = origin_y - y;
    let d = (if diff >= 0 {
        diff
    } else {
        -diff
    }) + x;
    (rem(d, 3) + 1) * quot(d, 3)
}

/// The rank of a target at (x, y) tried from catapult segment `base` on: the first segment
/// whose shot can hit it gives the rank, `None` when none of the three can.
pub open spec fn rank_from(x: int, y: int, base: int) -> Option<int>
    decreases 3 - base,
{
    if base >= 3 || base < 0 {
        None
    } else {
        let yy = y - base;
        let horizontal = x + yy;
        if x < yy {
            rank_from(x, y, base + 1)
        } else if x <= 2 * yy {
            Some((base + 1) * yy)
        } else if rem(horizontal, 3) == 0 {
            Some((base + 1) * quot(horizontal, 3))
        } else {
            rank_from(x, y, base + 1)
        }
    }
}

/// A coordinate small enough that the ranking arithmetic stays within `i32`.
pub open spec fn small(v: int) -> bool {
    -0x2000_0000 <= v <= 0x2000_0000
}

pub fn get_hit_position(initial_position: (i32, i32)) -> (r: (i32, i32))
    requires
        small(initial_position.0 as int),
        small(initial_position.1 as int),
    ensures
        (r.0 as int, r.1 as int) == hit_of(initial_position.0 as int, initial_position.1 as int),
{
    (
        initial_position.0 / 2,
        initial_position.1 - initial_position.0 / 2 - initial_position.0 % 2,
    )
}

pub fn get_rank_3(hit_position: (i32, i32), origin_y: i32) -> (r: i32)
    requires
        small(hit_position.0 as int),
        small(hit_position.1 as int),
        small(origin_y as int),
    ensures
        r == rank3(hit_position.0 as int, hit_position.1 as int, origin_y as int),
{
    let diff = origin_y - hit_position.1;
    let distance = (if diff >= 0 {
        diff
    } else {
        -diff
    }) + hit_position.0;
    let letter = (distance % 3) + 1;
    let power = distance / 3;
    assert(-0x6000_0000 <= letter * power <= 0x6000_0000) by (nonlinear_arith)
        requires
            -1 <= letter <= 3,
            -0x2000_0000 <= power <= 0x2000_0000,
    ;
    letter * power
}

pub fn get_ranks(hit_position: (i32, i32)) -> (r: Option<i32>)
    requires
        small(hit_position.0 as int),
        -0x3800_0000 <= hit_position.1 <= 0x3800_0000,
    ensures
        r matches Some(v) ==> rank_from(hit_position.0 as int, hit_position.1 as int, 0) == Some(v as int),
        r is None ==> rank_from(hit_position.0 as int, hit_position.1 as int, 0) is None,
{
    let mut base: i32 = 0;
    while base < 3
        invariant
            0 <= base <= 3,
            small(hit_position.0 as int),
            -0x3800_0000 <= hit_position.1 <= 0x3800_0000,
            rank_from(hit_position.0 as int, hit_position.1 as int, 0) == rank_from(
                hit_position.0 as int,
                hit_position.1 as int,
                base as int,
            ),
        decreases 3 - base,
    {
        let y = hit_position.1 - base;
        let horizontal = hit_position.0 + y;
        if hit_position.0 < y {
            base = base + 1;
            continue;
        }
        if hit_position.0 <= 2 * y {
            assert(0 <= (base + 1) * y <= 3 * 0x2000_0000) by (nonlinear_arith)
                requires
                    0 <= base < 3,
                    0 <= y <= 0x2000_0000,
            ;
            return Some((base + 1) * y);
        }
        if horizontal % 3 == 0 {
            let q = horizontal / 3;
            assert(-0x6000_0000 <= (base + 1) * q <= 0x6000_0000) by (nonlinear_arith)
                requires
                    0 <= base < 3,
                    -0x2000_0000 <= q <= 0x2000_0000,
            ;
            return Some((base + 1) * q);
        }
        base = base + 1;
    }
    None
}

/// What the target at (x, y) adds to the score: its rank, doubled for a hard target (`'H'`)
/// when `part` is not 1; nothing for an empty cell.
pub open spec fn cell_score(m: Seq<Vec<char>>, x: int, y: int, part: u8) -> int {
    if at(m, x, y) != '.' {
        rank3(x, y, height(m) - 1) * (if part != 1 && at(m, x, y) == 'H' {
            2int
        } else {
            1int
        })
    } else {
        0
    }
}

/// The score of the first `k` cells of column `x`.
pub open spec fn column_score(m: Seq<Vec<char>>, x: int, k: int, part: u8) -> int
    decreases k,
{
    if k <= 0 {
        0
    } else {
        column_score(m, x, k - 1, part) + cell_score(m, x, k - 1, part)
    }
}

/// The score of columns 1 to `k - 1`; column 0 holds the catapults.
pub open spec fn grid_score(m: Seq<Vec<char>>, k: int, part: u8) -> int
    decreases k,
{
    if k <= 1 {
        0
    } else {
        grid_score(m, k - 1, part) + column_score(m, k - 1, height(m), part)
    }
}

/// A grid small enough that its score fits an `i32`.
pub open spec fn score_fits(m: Seq<Vec<char>>) -> bool {
    grid_ok(m) && 2 * (width(m) * height(m)) * (width(m) + height(m)) <= i32::MAX
}

proof fn lemma_rank3_bound(x: int, y: int, origin_y: int)
    requires
        0 <= x,
        y <= origin_y,
    ensures
        0 <= rank3(x, y, origin_y) <= origin_y - y + x,
{
    let d = origin_y - y + x;
    assert(0 <= (rem(d, 3) + 1) * quot(d, 3) <= d) by (nonlinear_arith)
        requires
            d >= 0,
            quot(d, 3) == d / 3,
            rem(d, 3) == d - 3 * (d / 3),
            0 <= d - 3 * (d / 3) < 3,
    ;
}

/// The score of the targets in the grid: the sum, over the cells not in column 0 and not empty,
/// of `cell_score`. The grid is left as it is.
pub fn solve(m: &mut Vec<Vec<char>>, part: u8) -> (r: i32)
    requires
        score_fits(old(m)@),
    ensures
        final(m)@ == old(m)@,
        r == grid_score(old(m)@, width(old(m)@), part),
{
    let ghost g = m@;
    let w = m[0].len();
    let h = m.len();
    let ghost c = 2 * (width(g) + height(g));
    proof {
        lemma_dims(g);
    }
    if w == 0 {
        return 0;
    }
    proof {
        assert(w <= w * h && h <= w * h) by (nonlinear_arith)
            requires
                1 <= h,
                1 <= w,
        ;
        assert(4 * (w * h) <= 2 * (w * h) * (w + h)) by (nonlinear_arith)
            requires
                1 <= h,
                1 <= w,
        ;
    }
    let origin_y = (h - 1) as i32;
    let mut score: i32 = 0;
    let mut x: usize = 1;
    while x < w
        invariant
            score_fits(g),
            g == m@,
            w == width(g),
            h == height(g),
            w * h <= 0x2000_0000,
            origin_y == h - 1,
            c == 2 * (w + h),
            1 <= x <= w,
            score == grid_score(g, x as int, part),
            0 <= score <= ((x - 1) * h) * c,
        decreases w - x,
    {
        let mut y: usize = 0;
        let ghost base = score;
        while y < h
            invariant
                score_fits(g),
                g == m@,
                w == width(g),
                h == height(g),
                w * h <= 0x2000_0000,
                origin_y == h - 1,
                c == 2 * (w + h),
                1 <= x < w,
                y <= h,
                base == grid_score(g, x as int, part),
                score == base + column_score(g, x as int, y as int, part),
                0 <= score <= ((x - 1) * h + y) * c,
            decreases h - y,
        {
            proof {
                assert(m@[y as int]@.len() == w);
            }
            let v = m[y][x];
            if v != '.' {
                proof {
                    lemma_rank3_bound(x as int, y as int, h - 1);
                    assert(x <= w * h && y < w * h && h <= w * h) by (nonlinear_arith)
                        requires
                            x < w,
                            y < h,
                    ;
                }
                let rank = get_rank_3((x as i32, y as i32), origin_y);
                proof {
                    assert(((x - 1) * h + y) * c + c == ((x - 1) * h + y + 1) * c) by (nonlinear_arith);
                    assert(((x - 1) * h + y + 1) * c <= 2 * (w * h) * (w + h)) by (nonlinear_arith)
                        requires
                            x < w,
                            y < h,
                            c == 2 * (w + h),
                            x >= 1,
                    ;
                }
                if part == 1 {
                    score = score + rank;
                } else {
                    let mult: i32 = if v == 'H' {
                        2
                    } else {
                        1
                    };
                    score = score + rank * mult;
                }
            } else {
                proof {
                    assert(((x - 1) * h + y) * c <= ((x - 1) * h + y + 1) * c) by (nonlinear_arith)
                        requires
                            c >= 0,
                    ;
                }
            }
            y = y + 1;
        }
        proof {
            assert((x - 1) * h + h == x * h) by (nonlinear_arith);
        }
        x = x + 1;
    }
    score
}

/// The sum of the ranks of meteors that start at `positions`, or `None` when some meteor
/// cannot be hit or the sum leaves `i32`.
pub open spec fn rank_total(positions: Seq<(i32, i32)>) -> Option<int>
    decreases positions.len(),
{
    if positions.len() == 0 {
        Some(0)
    } else {
        let p = positions.last();
        let h = hit_of(p.0 as int, p.1 as int);
        match (rank_total(positions.drop_last()), rank_from(h.0, h.1, 0)) {
            (Some(t), Some(k)) => if i32::MIN <= t + k <= i32::MAX {
                Some(t + k)
            } else {
                None
            },
            _ => None,
        }
    }
}

/// The sum of the ranks of the meteors that start at `initial_positions`; `None` when one of
/// them cannot be hit or the sum leaves `i32`.
pub fn solve_part_3(initial_positions: Vec<(i32, i32)>) -> (r: Option<i32>)
    requires
        forall|i: int|
            0 <= i < initial_positions@.len() ==> small((#[trigger] initial_positions@[i]).0 as int)
                && small(initial_positions@[i].1 as int),
    ensures
        r matches Some(v) ==> rank_total(initial_positions@) == Some(v as int),
        r is None ==> rank_total(initial_positions@) is None,
{
    let mut score: i32 = 0;
    let mut i: usize = 0;
    while i < initial_positions.len()
        invariant
            forall|i: int|
                0 <= i < initial_positions@.len() ==> small((#[trigger] initial_positions@[i]).0 as int)
                    && small(initial_positions@[i].1 as int),
            i <= initial_positions@.len(),
            rank_total(initial_positions@.take(i as int)) == Some(score as int),
        decreases initial_positions.len() - i,
    {
        let (x, y) = initial_positions[i];
        proof {
            assert(initial_positions@.take(i as int + 1).drop_last() =~= initial_positions@.take(i as int));
            assert(initial_positions@.take(i as int + 1).last() == initial_positions@[i as int]);
        }
        let hit = get_hit_position((x, y));
        let ghost h = hit_of(x as int, y as int);
        let rank = get_ranks(hit);
        match rank {
            Some(k) => {
                match score.checked_add(k) {
                    Some(t) => {
                        score = t;
                    },
                    None => {
                        proof {
                            lemma_total_stays_none(initial_positions@, i as int + 1);
                        }
                        return None;
                    },
                }
            },
            None => {
                proof {
                    lemma_total_stays_none(initial_positions@, i as int + 1);
                }
                return None;
            },
        }
        i = i + 1;
    }
    proof {
        assert(initial_positions@.take(i as int) =~= initial_positions@);
    }
    Some(score)
}

proof fn lemma_total_stays_none(s: Seq<(i32, i32)>, k: int)
    requires
        0 <= k <= s.len(),
        rank_total(s.take(k)) is None,
    ensures
        rank_total(s) is None,
    decreases s.len() - k,
{
    if k < s.len() {
        assert(s.take(k + 1).drop_last() =~= s.take(k));
        lemma_total_stays_none(s, k + 1);
    } else {
        assert(s.take(k) =~= s);
    }
}

} // verus!
