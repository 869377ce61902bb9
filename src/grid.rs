use vstd::prelude::*;

verus! {

/// A grid is a non-empty sequence of rows of equal length, read as `m[row][column]`.
pub open spec fn is_rect(m: Seq<Vec<char>>) -> bool {
    &&& m.len() > 0
    &&& forall|i: int| 0 <= i < m.len() ==> #[trigger] m[i]@.len() == m[0]@.len()
}

pub open spec fn height(m: Seq<Vec<char>>) -> int {
    m.len() as int
}

pub open spec fn width(m: Seq<Vec<char>>) -> int {
    m[0]@.len() as int
}

pub open spec fn in_grid(m: Seq<Vec<char>>, x: int, y: int) -> bool {
    0 <= x < width(m) && 0 <= y < height(m)
}

/// The character at column `x`, row `y`.
pub open spec fn at(m: Seq<Vec<char>>, x: int, y: int) -> char {
    m[y]@[x]
}

/// A rectangular grid whose cell count and height fit an `i32`.
pub open spec fn grid_ok(m: Seq<Vec<char>>) -> bool {
    is_rect(m) && width(m) * height(m) <= i32::MAX && height(m) <= i32::MAX
}

/// Position of cell (x, y) in a row-major flat array.
pub open spec fn flat(m: Seq<Vec<char>>, x: int, y: int) -> int {
    y * width(m) + x
}

pub proof fn lemma_flat_in_range(m: Seq<Vec<char>>, x: int, y: int)
    requires
        grid_ok(m),
        in_grid(m, x, y),
    ensures
        0 <= flat(m, x, y) < width(m) * height(m),
{
    let w = width(m);
    let h = height(m);
    assert(0 <= y * w + x < w * h) by (nonlinear_arith)
        requires
            0 <= x < w,
            0 <= y < h,
    ;
}

pub proof fn lemma_dims(m: Seq<Vec<char>>)
    requires
        grid_ok(m),
    ensures
        width(m) <= i32::MAX,
        height(m) <= i32::MAX,
        height(m) >= 1,
{
    let w = width(m);
    let h = height(m);
    if w == 0 {
    } else {
        assert(w <= w * h && h <= w * h) by (nonlinear_arith)
            requires
                1 <= w,
                1 <= h,
        ;
    }
}

pub proof fn lemma_flat_injective(m: Seq<Vec<char>>, x1: int, y1: int, x2: int, y2: int)
    requires
        grid_ok(m),
        in_grid(m, x1, y1),
        in_grid(m, x2, y2),
        flat(m, x1, y1) == flat(m, x2, y2),
    ensures
        x1 == x2 && y1 == y2,
{
    let w = width(m);
    if y1 < y2 {
        assert(y1 * w + w <= y2 * w) by (nonlinear_arith)
            requires
                y1 + 1 <= y2,
                0 <= w,
        ;
    } else if y2 < y1 {
        assert(y2 * w + w <= y1 * w) by (nonlinear_arith)
            requires
                y2 + 1 <= y1,
                0 <= w,
        ;
    }
}

/// How many entries of `s` are false.
pub open spec fn count_false(s: Seq<bool>) -> nat
    decreases s.len(),
{
    if s.len() == 0 {
        0
    } else {
        count_false(s.drop_last()) + if s.last() {
            0nat
        } else {
            1nat
        }
    }
}

pub proof fn lemma_count_false_bound(s: Seq<bool>)
    ensures
        count_false(s) <= s.len(),
    decreases s.len(),
{
    if s.len() > 0 {
        lemma_count_false_bound(s.drop_last());
    }
}

pub proof fn lemma_count_false_all(n: nat)
    ensures
        count_false(Seq::new(n, |i: int| false)) == n,
    decreases n,
{
    if n > 0 {
        let s = Seq::new(n, |i: int| false);
        assert(s.drop_last() =~= Seq::new((n - 1) as nat, |i: int| false));
        lemma_count_false_all((n - 1) as nat);
    }
}

/// Setting a false entry to true lowers the count by one.
pub proof fn lemma_count_false_set(s: Seq<bool>, i: int)
    requires
        0 <= i < s.len(),
        !s[i],
    ensures
        count_false(s.update(i, true)) + 1 == count_false(s),
    decreases s.len(),
{
    let t = s.update(i, true);
    if i == s.len() - 1 {
        assert(t.drop_last() =~= s.drop_last());
    } else {
        assert(t.drop_last() =~= s.drop_last().update(i, true));
        lemma_count_false_set(s.drop_last(), i);
    }
}

} // verus!
