//! Myers' O(ND) shortest edit script: furthest-reaching points per diagonal,
//! layer by layer, then a walk back from the far corner.
use vstd::prelude::*;

use super::diff_result::DiffResult;
use super::edit_graph::{
    edit_distance, is_common_trace, is_optimal_trace, lemma_edit_distance_bounds,
    lemma_edit_distance_drop_a, lemma_edit_distance_drop_b, lemma_edit_distance_extend_a,
    lemma_edit_distance_extend_b,
};

verus! {

spec fn min_of(p: int, q: int) -> int {
    if p <= q { p } else { q }
}

spec fn max_of(p: int, q: int) -> int {
    if p >= q { p } else { q }
}

/// Diagonal `k = x - y` is explored in layer `d` of an `n` by `m` graph.
spec fn on_layer(n: int, m: int, d: int, k: int) -> bool {
    -min_of(m, d) <= k <= min_of(n, d) && (k + d) % 2 == 0
}

/// Where the snake of diagonal `k` in layer `d` begins, read from layer `d - 1`
/// (stored at index `k + d - 1`): one step right from diagonal `k - 1`, or one
/// step down from diagonal `k + 1`, whichever lies further, clamped to the grid.
spec fn left_start(prev: Seq<usize>, n: int, m: int, d: int, k: int) -> int {
    if k == -min_of(m, d) { 0 } else { min_of(prev[k + d - 2] + 1, n) }
}

spec fn right_start(prev: Seq<usize>, n: int, m: int, d: int, k: int) -> int {
    if k == min_of(n, d) { 0 } else { min_of(prev[k + d] as int, m + k) }
}

spec fn snake_start(prev: Seq<usize>, n: int, m: int, d: int, k: int) -> int {
    max_of(left_start(prev, n, m, d, k), right_start(prev, n, m, d, k))
}

/// `(x, x - k)` lies in the grid.
spec fn in_grid(n: int, m: int, k: int, x: int) -> bool {
    0 <= x <= n && 0 <= x - k <= m
}

/// `x` is the furthest point of diagonal `k` that at most `d` edits reach.
spec fn furthest<T>(a: Seq<T>, b: Seq<T>, d: int, k: int, x: int) -> bool {
    &&& in_grid(a.len() as int, b.len() as int, k, x)
    &&& edit_distance(a, b, x as nat, (x - k) as nat) <= d
    &&& forall|x2: int|
        in_grid(a.len() as int, b.len() as int, k, x2) && #[trigger] edit_distance(
            a,
            b,
            x2 as nat,
            (x2 - k) as nat,
        ) <= d ==> x2 <= x
}

/// From `(s, s - k)` to `(x, x - k)` every step is a match, and the match run
/// cannot go on past `x`.
spec fn slid<T>(a: Seq<T>, b: Seq<T>, k: int, s: int, x: int) -> bool {
    &&& s <= x
    &&& forall|t: int| s <= t < x ==> #[trigger] a[t] == b[t - k]
    &&& (x == a.len() || x - k == b.len() || a[x] != b[x - k])
}

/// Row `row` holds, at index `k + d`, the furthest point of each diagonal `k`
/// of layer `d` below `upto`.
spec fn row_reach<T>(a: Seq<T>, b: Seq<T>, row: Seq<usize>, d: int, upto: int) -> bool {
    forall|k: int|
        #![trigger on_layer(a.len() as int, b.len() as int, d, k), row[k + d]]
        on_layer(a.len() as int, b.len() as int, d, k) && k + d < upto ==> k + d < row.len()
            && furthest(a, b, d, k, row[k + d] as int)
}

/// Each of those points ends the snake that begins where the row `prev` of
/// layer `d - 1` says.
spec fn row_slid<T>(a: Seq<T>, b: Seq<T>, prev: Seq<usize>, row: Seq<usize>, d: int, upto: int) -> bool {
    forall|k: int|
        #![trigger on_layer(a.len() as int, b.len() as int, d, k), row[k + d]]
        on_layer(a.len() as int, b.len() as int, d, k) && k + d < upto ==> k + d < row.len()
            && slid(a, b, k, snake_start(prev, a.len() as int, b.len() as int, d, k), row[k + d] as int)
}

/// The row of layer `d - 1` that layer `d` is built from.
spec fn below_ok<T>(a: Seq<T>, b: Seq<T>, prev: Seq<usize>, d: int) -> bool {
    d >= 1 ==> prev.len() == 2 * d - 1 && row_reach(a, b, prev, d - 1, 2 * d - 1)
}

/// A match run never costs more.
proof fn lemma_slide_sound<T>(a: Seq<T>, b: Seq<T>, k: int, s: int, x: int)
    requires
        s <= x,
        in_grid(a.len() as int, b.len() as int, k, s),
        in_grid(a.len() as int, b.len() as int, k, x),
        forall|t: int| s <= t < x ==> #[trigger] a[t] == b[t - k],
    ensures
        edit_distance(a, b, x as nat, (x - k) as nat) <= edit_distance(a, b, s as nat, (s - k) as nat),
    decreases x - s,
{
    if s < x {
        lemma_slide_sound(a, b, k, s, x - 1);
        assert(a[x - 1] == b[x - 1 - k]);
    }
}

/// The snake start of a diagonal lies in the grid and within `d` edits.
proof fn lemma_start_sound<T>(a: Seq<T>, b: Seq<T>, prev: Seq<usize>, d: int, k: int)
    requires
        d >= 0,
        below_ok(a, b, prev, d),
        on_layer(a.len() as int, b.len() as int, d, k),
    ensures
        ({
            let s = snake_start(prev, a.len() as int, b.len() as int, d, k);
            in_grid(a.len() as int, b.len() as int, k, s) && edit_distance(a, b, s as nat, (s - k) as nat) <= d
        }),
{
    let n = a.len() as int;
    let m = b.len() as int;
    let s = snake_start(prev, n, m, d, k);
    let l = left_start(prev, n, m, d, k);
    let r = right_start(prev, n, m, d, k);
    if k != -min_of(m, d) {
        assert(on_layer(n, m, d - 1, k - 1));
        let p = prev[k - 1 + (d - 1)] as int;
        assert(furthest(a, b, d - 1, k - 1, p));
        if p + 1 <= n {
            assert(edit_distance(a, b, (p + 1) as nat, (p + 1 - k) as nat) <= d);
        } else {
            lemma_edit_distance_drop_b(a, b, n as nat, (n - k + 1) as nat);
        }
    }
    if k != min_of(n, d) {
        assert(on_layer(n, m, d - 1, k + 1));
        let q = prev[k + 1 + (d - 1)] as int;
        assert(furthest(a, b, d - 1, k + 1, q));
        if q - k <= m {
            assert(edit_distance(a, b, q as nat, (q - k) as nat) <= d);
        } else {
            lemma_edit_distance_drop_a(a, b, (m + k + 1) as nat, m as nat);
        }
    }
}

/// No point of diagonal `k` within `d` edits lies past the end of its snake.
proof fn lemma_complete<T>(a: Seq<T>, b: Seq<T>, prev: Seq<usize>, d: int, k: int, x: int, x2: int)
    requires
        d >= 0,
        below_ok(a, b, prev, d),
        on_layer(a.len() as int, b.len() as int, d, k),
        slid(a, b, k, snake_start(prev, a.len() as int, b.len() as int, d, k), x),
        in_grid(a.len() as int, b.len() as int, k, x),
        in_grid(a.len() as int, b.len() as int, k, x2),
        edit_distance(a, b, x2 as nat, (x2 - k) as nat) <= d,
    ensures
        x2 <= x,
    decreases x2,
{
    let n = a.len() as int;
    let m = b.len() as int;
    let s = snake_start(prev, n, m, d, k);
    let y2 = x2 - k;
    if x2 > s && x2 > 0 && y2 > 0 {
        let del = edit_distance(a, b, (x2 - 1) as nat, y2 as nat);
        let ins = edit_distance(a, b, x2 as nat, (y2 - 1) as nat);
        if del + 1 <= d {
            lemma_edit_distance_bounds(a, b, (x2 - 1) as nat, y2 as nat);
            assert(on_layer(n, m, d - 1, k - 1));
            assert(k != -min_of(m, d));
            let p = prev[k - 1 + (d - 1)] as int;
            assert(furthest(a, b, d - 1, k - 1, p));
            assert(((x2 - 1) - (k - 1)) as nat == y2 as nat);
            assert(edit_distance(a, b, (x2 - 1) as nat, ((x2 - 1) - (k - 1)) as nat) <= d - 1);
            assert(x2 - 1 <= p);
        } else if ins + 1 <= d {
            lemma_edit_distance_bounds(a, b, x2 as nat, (y2 - 1) as nat);
            assert(on_layer(n, m, d - 1, k + 1));
            assert(k != min_of(n, d));
            let q = prev[k + 1 + (d - 1)] as int;
            assert(furthest(a, b, d - 1, k + 1, q));
            assert((x2 - (k + 1)) as nat == (y2 - 1) as nat);
            assert(edit_distance(a, b, x2 as nat, (x2 - (k + 1)) as nat) <= d - 1);
            assert(x2 <= q);
        } else {
            assert(a[x2 - 1] == b[y2 - 1]);
            lemma_complete(a, b, prev, d, k, x, x2 - 1);
        }
    } else if x2 > s && y2 == 0 {
        assert(s >= k) by {
            if k != -min_of(m, d) {
                assert(on_layer(n, m, d - 1, k - 1));
                assert(furthest(a, b, d - 1, k - 1, prev[k - 1 + (d - 1)] as int));
            } else if k != min_of(n, d) {
                assert(on_layer(n, m, d - 1, k + 1));
                assert(furthest(a, b, d - 1, k + 1, prev[k + 1 + (d - 1)] as int));
            }
        }
    }
}

/// The row of layer `i - 1` in a table of rows, none below layer zero.
spec fn below(table: Seq<Vec<usize>>, i: int) -> Seq<usize> {
    if i == 0 { Seq::empty() } else { table[i - 1]@ }
}

/// Rows `0 .. upto` of the table are complete and correct.
#[verifier::opaque]
spec fn table_ok<T>(a: Seq<T>, b: Seq<T>, table: Seq<Vec<usize>>, upto: int) -> bool {
    forall|i: int|
        0 <= i < upto ==> {
            &&& (#[trigger] table[i])@.len() == 2 * i + 1
            &&& row_reach(a, b, table[i]@, i, 2 * i + 1)
            &&& row_slid(a, b, below(table, i), table[i]@, i, 2 * i + 1)
        }
}

/// A correct table gives each of its layers the row below it.
proof fn lemma_below_ok<T>(a: Seq<T>, b: Seq<T>, table: Seq<Vec<usize>>, upto: int, d: int)
    requires
        table_ok(a, b, table, upto),
        table.len() == upto,
        0 <= d <= upto,
    ensures
        below_ok(a, b, below(table, d), d),
        d < upto ==> row_slid(a, b, below(table, d), table[d]@, d, 2 * d + 1)
            && row_reach(a, b, table[d]@, d, 2 * d + 1) && table[d]@.len() == 2 * d + 1,
{
    reveal(table_ok);
    if d >= 1 {
        assert(table[d - 1]@.len() == 2 * (d - 1) + 1);
    }
    if d < upto {
        assert(table[d]@.len() == 2 * d + 1);
    }
}

/// The two candidate starts of the snake at index `j` of row `d`.
fn candidates(prev: &Vec<usize>, n: usize, m: usize, d: usize, j: usize) -> (r: (usize, usize))
    requires
        n + m <= usize::MAX / 2,
        d <= n + m,
        d >= 1 ==> prev@.len() == 2 * d - 1,
        on_layer(n as int, m as int, d as int, j - d),
    ensures
        r.0 == left_start(prev@, n as int, m as int, d as int, j - d),
        r.1 == right_start(prev@, n as int, m as int, d as int, j - d),
{
    let lo = if m < d { d - m } else { 0 };
    let hi = if n < d { d + n } else { 2 * d };
    let left = if j == lo {
        0
    } else {
        let p = prev[j - 2];
        if p >= n { n } else { p + 1 }
    };
    let right = if j == hi {
        0
    } else {
        let q = prev[j];
        let top = if j >= d { m + (j - d) } else { m - (d - j) };
        if q <= top { q } else { top }
    };
    (left, right)
}

/// Follows matches from `(x0, y0)` as far as they go.
fn slide(lhs: &Vec<String>, rhs: &Vec<String>, x0: usize, y0: usize) -> (x: usize)
    requires
        x0 <= lhs@.len(),
        y0 <= rhs@.len(),
    ensures
        slid(lhs.deep_view(), rhs.deep_view(), x0 - y0, x0 as int, x as int),
        in_grid(lhs@.len() as int, rhs@.len() as int, x0 - y0, x as int),
{
    let ghost a = lhs.deep_view();
    let ghost b = rhs.deep_view();
    let ghost k = x0 - y0;
    let mut x = x0;
    let mut y = y0;
    while x < lhs.len() && y < rhs.len() && lhs[x] == rhs[y]
        invariant
            x0 <= x <= lhs@.len(),
            y <= rhs@.len(),
            x - y == k,
            a == lhs.deep_view(),
            b == rhs.deep_view(),
            forall|t: int| x0 <= t < x ==> #[trigger] a[t] == b[t - k],
        decreases lhs@.len() - x,
    {
        assert(a[x as int] == b[x - k]);
        x = x + 1;
        y = y + 1;
    }
    x
}

/// The furthest point of diagonal `j - d` in layer `d`, built from the row
/// `prev` of layer `d - 1`.
fn furthest_on(lhs: &Vec<String>, rhs: &Vec<String>, prev: &Vec<usize>, d: usize, j: usize) -> (x: usize)
    requires
        lhs@.len() + rhs@.len() <= usize::MAX / 2,
        d <= lhs@.len() + rhs@.len(),
        below_ok(lhs.deep_view(), rhs.deep_view(), prev@, d as int),
        on_layer(lhs@.len() as int, rhs@.len() as int, d as int, j - d),
    ensures
        furthest(lhs.deep_view(), rhs.deep_view(), d as int, j - d, x as int),
        slid(
            lhs.deep_view(),
            rhs.deep_view(),
            j - d,
            snake_start(prev@, lhs@.len() as int, rhs@.len() as int, d as int, j - d),
            x as int,
        ),
{
    let ghost a = lhs.deep_view();
    let ghost b = rhs.deep_view();
    let ghost k = j - d;
    let n = lhs.len();
    let m = rhs.len();
    proof {
        lemma_start_sound(a, b, prev@, d as int, k);
    }
    let (l, r) = candidates(prev, n, m, d, j);
    let s = if l >= r { l } else { r };
    let x = slide(lhs, rhs, s, s + d - j);
    proof {
        lemma_slide_sound(a, b, k, s as int, x as int);
        assert forall|x2: int|
            in_grid(n as int, m as int, k, x2) && #[trigger] edit_distance(a, b, x2 as nat, (x2 - k) as nat)
                <= d implies x2 <= x by {
            lemma_complete(a, b, prev@, d as int, k, x as int, x2);
        }
    }
    x
}

/// Row `d` of the table, built from row `d - 1`; whether one of its snakes
/// reached the far corner, where the row stops.
fn fill_row(lhs: &Vec<String>, rhs: &Vec<String>, prev: &Vec<usize>, d: usize) -> (r: (Vec<usize>, bool))
    requires
        lhs@.len() + rhs@.len() <= usize::MAX / 2,
        d <= lhs@.len() + rhs@.len(),
        below_ok(lhs.deep_view(), rhs.deep_view(), prev@, d as int),
    ensures
        ({
            let (row, found) = r;
            let a = lhs.deep_view();
            let b = rhs.deep_view();
            let n = lhs@.len() as int;
            let m = rhs@.len() as int;
            &&& row_reach(a, b, row@, d as int, row@.len() as int)
            &&& row_slid(a, b, prev@, row@, d as int, row@.len() as int)
            &&& found ==> on_layer(n, m, d as int, n - m) && n - m + d < row@.len() && row@[n - m + d] == n
            &&& !found ==> row@.len() == 2 * d + 1 && forall|k: int|
                on_layer(n, m, d as int, k) ==> !(row@[k + d] == n && row@[k + d] - k == m)
        }),
{
    let ghost a = lhs.deep_view();
    let ghost b = rhs.deep_view();
    let n = lhs.len();
    let m = rhs.len();
    let lo = if m < d { d - m } else { 0 };
    let hi = if n < d { d + n } else { 2 * d };
    let mut row: Vec<usize> = Vec::new();
    let mut j: usize = 0;
    let mut found = false;
    while j <= 2 * d && !found
        invariant
            a == lhs.deep_view(),
            b == rhs.deep_view(),
            n == a.len(),
            m == b.len(),
            n + m <= usize::MAX / 2,
            d <= n + m,
            lo == d - min_of(m as int, d as int),
            hi == d + min_of(n as int, d as int),
            below_ok(a, b, prev@, d as int),
            row@.len() == j,
            j <= 2 * d + 1,
            row_reach(a, b, row@, d as int, j as int),
            row_slid(a, b, prev@, row@, d as int, j as int),
            !found ==> forall|k: int|
                on_layer(n as int, m as int, d as int, k) && k + d < j ==> !(row@[k + d] == n && row@[k + d] - k == m),
            found ==> j >= 1 && row@[j - 1] == n && on_layer(n as int, m as int, d as int, j - 1 - d)
                && n - (j - 1 - d) == m,
        decreases 2 * d + 1 - j,
    {
        let ghost old_row = row@;
        if j % 2 == 0 && lo <= j && j <= hi {
            let x = furthest_on(lhs, rhs, prev, d, j);
            row.push(x);
            if x == n && x + d - j == m {
                found = true;
            }
        } else {
            row.push(0);
        }
        proof {
            assert forall|k2: int| on_layer(n as int, m as int, d as int, k2) && k2 + d < j + 1 implies
                k2 + d < row@.len() && #[trigger] furthest(a, b, d as int, k2, row@[k2 + d] as int)
                    && slid(a, b, k2, snake_start(prev@, n as int, m as int, d as int, k2), row@[k2 + d] as int)
            by {
                if k2 + d < j {
                    assert(row_reach(a, b, old_row, d as int, j as int));
                    assert(old_row[k2 + d] == row@[k2 + d]);
                }
            }
        }
        j = j + 1;
    }
    (row, found)
}

/// Fills the furthest-reach rows layer by layer, stopping at the first layer
/// whose snake reaches the far corner; that layer is the edit distance.
/// Returns the rows below that layer and the distance.
fn forward(lhs: &Vec<String>, rhs: &Vec<String>) -> (r: (Vec<Vec<usize>>, usize))
    requires
        lhs@.len() + rhs@.len() <= usize::MAX / 2,
    ensures
        ({
            let (table, dist) = r;
            let a = lhs.deep_view();
            let b = rhs.deep_view();
            let n = lhs@.len() as int;
            let m = rhs@.len() as int;
            &&& dist == edit_distance(a, b, n as nat, m as nat)
            &&& table@.len() == dist
            &&& table_ok(a, b, table@, dist as int)
            &&& on_layer(n, m, dist as int, n - m)
            &&& slid(a, b, n - m, snake_start(below(table@, dist as int), n, m, dist as int, n - m), n)
        }),
{
    let ghost a = lhs.deep_view();
    let ghost b = rhs.deep_view();
    let n = lhs.len();
    let m = rhs.len();
    let ghost dist = edit_distance(a, b, n as nat, m as nat);
    proof {
        lemma_edit_distance_bounds(a, b, n as nat, m as nat);
    }
    let none: Vec<usize> = Vec::new();
    let mut table: Vec<Vec<usize>> = Vec::new();
    let mut d: usize = 0;
    proof {
        reveal(table_ok);
    }
    loop
        invariant_except_break
            d <= dist,
        invariant
            a == lhs.deep_view(),
            b == rhs.deep_view(),
            n == a.len(),
            m == b.len(),
            n + m <= usize::MAX / 2,
            dist == edit_distance(a, b, n as nat, m as nat),
            dist <= n + m,
            n <= m + dist,
            m <= n + dist,
            (dist + n + m) % 2 == 0,
            none@.len() == 0,
            table@.len() == d,
            table_ok(a, b, table@, d as int),
        ensures
            d == dist,
            table@.len() == d,
            table_ok(a, b, table@, d as int),
            on_layer(n as int, m as int, d as int, n - m),
            slid(a, b, n - m, snake_start(below(table@, d as int), n as int, m as int, d as int, n - m), n as int),
        decreases n + m - d,
    {
        let prev: &Vec<usize> = if d == 0 { &none } else { &table[d - 1] };
        proof {
            lemma_below_ok(a, b, table@, d as int, d as int);
        }
        let (row, found) = fill_row(lhs, rhs, prev, d);
        if found {
            proof {
                let k = n - m;
                assert(on_layer(n as int, m as int, d as int, k));
                assert(furthest(a, b, d as int, k, n as int));
                assert(edit_distance(a, b, n as nat, (n - k) as nat) <= d);
            }
            break;
        }
        proof {
            let k = n - m;
            if dist == d {
                assert(on_layer(n as int, m as int, d as int, k));
                assert(furthest(a, b, d as int, k, row@[k + d] as int));
                let x2 = n as int;
                assert(edit_distance(a, b, x2 as nat, (x2 - k) as nat) <= d);
                assert(in_grid(a.len() as int, b.len() as int, k, x2));
                assert(row@[k + d] >= n);
                assert(!(row@[k + d] == n && row@[k + d] - k == m));
            }
        }
        let ghost old_table = table@;
        table.push(row);
        proof {
            reveal(table_ok);
            assert forall|i: int| 0 <= i < d + 1 implies {
                &&& (#[trigger] table@[i])@.len() == 2 * i + 1
                &&& row_reach(a, b, table@[i]@, i, 2 * i + 1)
                &&& row_slid(a, b, below(table@, i), table@[i]@, i, 2 * i + 1)
            } by {
                if i < d {
                    assert(below(table@, i) == below(old_table, i));
                }
            }
        }
        d = d + 1;
    }
    (table, d)
}

/// The edit that led onto the snake of diagonal `k` in layer `d`, walked back
/// to the snake's start `(x, y)`, comes from the furthest point of diagonal
/// `k - 1` (one step left) or `k + 1` (one step up) of layer `d - 1`. A start
/// that the grid's edge clamped never lies on the way back from the corner:
/// the corner would then be nearer than `dist`.
proof fn lemma_step_back<T>(
    a: Seq<T>,
    b: Seq<T>,
    table: Seq<Vec<usize>>,
    d: int,
    k: int,
    x: int,
    y: int,
    matched: int,
    left: bool,
)
    requires
        ({
            let n = a.len() as int;
            let m = b.len() as int;
            let dist = edit_distance(a, b, n as nat, m as nat) as int;
            let prev = below(table, d);
            &&& table.len() == dist
            &&& table_ok(a, b, table, dist)
            &&& 1 <= d <= dist
            &&& on_layer(n, m, d, k)
            &&& x - y == k
            &&& x == snake_start(prev, n, m, d, k)
            &&& 0 <= y
            &&& matched >= 0
            &&& 2 * matched + x + y + (dist - d) == n + m
            &&& matched > 0 ==> x < n && y < m
            &&& left == (k != -min_of(m, d) && x == left_start(prev, n, m, d, k))
        }),
    ensures
        ({
            let n = a.len() as int;
            let m = b.len() as int;
            let k2 = if left { k - 1 } else { k + 1 };
            let x2 = if left { x - 1 } else { x };
            &&& if left { x >= 1 } else { y >= 1 }
            &&& on_layer(n, m, d - 1, k2)
            &&& in_grid(n, m, k2, x2)
            &&& slid(a, b, k2, snake_start(below(table, d - 1), n, m, d - 1, k2), x2)
        }),
{
    let n = a.len() as int;
    let m = b.len() as int;
    let dist = edit_distance(a, b, n as nat, m as nat) as int;
    let prev = below(table, d);
    lemma_below_ok(a, b, table, dist, d);
    lemma_below_ok(a, b, table, dist, d - 1);
    if left {
        let p = prev[k + d - 2] as int;
        assert(on_layer(n, m, d - 1, k - 1));
        assert(furthest(a, b, d - 1, k - 1, p));
        if p >= n {
            lemma_edit_distance_extend_b(a, b, n as nat, (n - k + 1) as nat, m as nat);
        }
    } else {
        if k == min_of(n, d) {
            assert(k == -min_of(m, d));
        }
        let q = prev[k + d] as int;
        assert(on_layer(n, m, d - 1, k + 1));
        assert(furthest(a, b, d - 1, k + 1, q));
        if q - k > m {
            lemma_edit_distance_extend_a(a, b, q as nat, n as nat, m as nat);
        }
    }
}

/// The matches recorded so far, newest last: valid, strictly decreasing in
/// both coordinates, and none below `(x, y)`.
#[verifier::opaque]
spec fn walked<T>(a: Seq<T>, b: Seq<T>, rev: Seq<(usize, usize)>, x: int, y: int) -> bool {
    &&& forall|p: int|
        0 <= p < rev.len() ==> (#[trigger] rev[p]).0 < a.len() && rev[p].1 < b.len() && a[rev[p].0 as int]
            == b[rev[p].1 as int] && rev[p].0 >= x && rev[p].1 >= y
    &&& forall|p: int| 0 <= p < rev.len() - 1 ==> (#[trigger] rev[p]).0 > rev[p + 1].0 && rev[p].1 > rev[p + 1].1
}

proof fn lemma_walked_corner<T>(a: Seq<T>, b: Seq<T>, rev: Seq<(usize, usize)>, x: int, y: int)
    requires
        walked(a, b, rev, x, y),
    ensures
        rev.len() > 0 ==> x < a.len() && y < b.len(),
{
    reveal(walked);
    if rev.len() > 0 {
        assert(rev[0].0 >= x);
    }
}

proof fn lemma_walked_step<T>(a: Seq<T>, b: Seq<T>, rev: Seq<(usize, usize)>, x: int, y: int, x2: int, y2: int)
    requires
        walked(a, b, rev, x, y),
        x2 <= x,
        y2 <= y,
    ensures
        walked(a, b, rev, x2, y2),
{
    reveal(walked);
}

/// Walks down diagonal `x - y` from `(x, y)` to `(s, s - (x - y))`, recording
/// each match passed.
fn walk_snake(
    lhs: &Vec<String>,
    rhs: &Vec<String>,
    rev: &mut Vec<(usize, usize)>,
    x: usize,
    y: usize,
    s: usize,
) -> (r: (usize, usize))
    requires
        walked(lhs.deep_view(), rhs.deep_view(), old(rev)@, x as int, y as int),
        x <= lhs@.len(),
        y <= rhs@.len(),
        s <= x,
        s >= x - y,
        forall|t: int| s <= t < x ==> #[trigger] lhs.deep_view()[t] == rhs.deep_view()[t - (x - y)],
    ensures
        r.0 == s,
        r.1 == s - (x - y),
        walked(lhs.deep_view(), rhs.deep_view(), final(rev)@, r.0 as int, r.1 as int),
        final(rev)@.len() == old(rev)@.len() + (x - s),
{
    let ghost a = lhs.deep_view();
    let ghost b = rhs.deep_view();
    let ghost k = x - y;
    let ghost start_len = rev@.len();
    let mut cx = x;
    let mut cy = y;
    while cx > s
        invariant
            a == lhs.deep_view(),
            b == rhs.deep_view(),
            s <= cx <= x,
            x <= lhs@.len(),
            y <= rhs@.len(),
            x - y == k,
            cx - cy == k,
            cy <= rhs@.len(),
            s >= k,
            forall|t: int| s <= t < x ==> #[trigger] a[t] == b[t - k],
            walked(a, b, rev@, cx as int, cy as int),
            rev@.len() == start_len + (x - cx),
        decreases cx,
    {
        cx = cx - 1;
        cy = cy - 1;
        assert(a[cx as int] == b[cx - k]);
        let ghost before = rev@;
        rev.push((cx, cy));
        proof {
            reveal(walked);
            let r2 = rev@;
            assert(r2[r2.len() - 1] == (cx, cy));
            assert forall|p: int| 0 <= p < r2.len() implies (#[trigger] r2[p]).0 < a.len() && r2[p].1 < b.len()
                && a[r2[p].0 as int] == b[r2[p].1 as int] && r2[p].0 >= cx && r2[p].1 >= cy by {
                if p < r2.len() - 1 {
                    assert(r2[p] == before[p]);
                }
            }
            assert forall|p: int| 0 <= p < r2.len() - 1 implies (#[trigger] r2[p]).0 > r2[p + 1].0 && r2[p].1
                > r2[p + 1].1 by {
                assert(r2[p] == before[p]);
                if p < r2.len() - 2 {
                    assert(r2[p + 1] == before[p + 1]);
                }
            }
        }
    }
    (cx, cy)
}

/// Walks back from the far corner through the rows, one layer at a time:
/// down the snake of the current diagonal, recording each match, then across
/// the one edit that led onto it. Returns the matches in increasing order.
fn backtrack(lhs: &Vec<String>, rhs: &Vec<String>, table: &Vec<Vec<usize>>, dist: usize) -> (trace: Vec<(usize, usize)>)
    requires
        lhs@.len() + rhs@.len() <= usize::MAX / 2,
        dist == edit_distance(lhs.deep_view(), rhs.deep_view(), lhs@.len() as nat, rhs@.len() as nat),
        table@.len() == dist,
        table_ok(lhs.deep_view(), rhs.deep_view(), table@, dist as int),
        on_layer(lhs@.len() as int, rhs@.len() as int, dist as int, lhs@.len() - rhs@.len()),
        slid(
            lhs.deep_view(),
            rhs.deep_view(),
            lhs@.len() - rhs@.len(),
            snake_start(below(table@, dist as int), lhs@.len() as int, rhs@.len() as int, dist as int, lhs@.len() - rhs@.len()),
            lhs@.len() as int,
        ),
    ensures
        is_common_trace(lhs.deep_view(), rhs.deep_view(), trace@),
        2 * trace@.len() + dist == lhs@.len() + rhs@.len(),
{
    let ghost a = lhs.deep_view();
    let ghost b = rhs.deep_view();
    let n = lhs.len();
    let m = rhs.len();
    proof {
        lemma_edit_distance_bounds(a, b, n as nat, m as nat);
    }
    let none: Vec<usize> = Vec::new();
    let mut rev: Vec<(usize, usize)> = Vec::new();
    let mut x = n;
    let mut y = m;
    let mut d = dist;
    proof {
        reveal(walked);
    }
    loop
        invariant_except_break
            on_layer(n as int, m as int, d as int, x - y),
            slid(a, b, x - y, snake_start(below(table@, d as int), n as int, m as int, d as int, x - y), x as int),
        invariant
            a == lhs.deep_view(),
            b == rhs.deep_view(),
            n == a.len(),
            m == b.len(),
            n + m <= usize::MAX / 2,
            dist == edit_distance(a, b, n as nat, m as nat),
            dist <= n + m,
            table@.len() == dist,
            table_ok(a, b, table@, dist as int),
            none@.len() == 0,
            d <= dist,
            x <= n,
            y <= m,
            2 * rev@.len() + x + y + (dist - d) == n + m,
            walked(a, b, rev@, x as int, y as int),
        ensures
            x == 0 && y == 0 && d == 0,
        decreases d,
    {
        let ghost k = x - y;
        let j = x + d - y;
        let prev: &Vec<usize> = if d == 0 { &none } else { &table[d - 1] };
        proof {
            lemma_below_ok(a, b, table@, dist as int, d as int);
        }
        let (l, r) = candidates(prev, n, m, d, j);
        let s = if l >= r { l } else { r };
        proof {
            lemma_start_sound(a, b, prev@, d as int, k);
        }
        let (sx, sy) = walk_snake(lhs, rhs, &mut rev, x, y, s);
        x = sx;
        y = sy;
        if d == 0 {
            break;
        }
        let lo = if m < d { d - m } else { 0 };
        let left = j != lo && s == l;
        proof {
            lemma_walked_corner(a, b, rev@, x as int, y as int);
            lemma_step_back(a, b, table@, d as int, k, x as int, y as int, rev@.len() as int, left);
        }
        if left {
            x = x - 1;
        } else {
            y = y - 1;
        }
        proof {
            lemma_walked_step(a, b, rev@, sx as int, sy as int, x as int, y as int);
        }
        d = d - 1;
    }
    let mut trace: Vec<(usize, usize)> = Vec::new();
    let mut i = rev.len();
    while i > 0
        invariant
            i <= rev@.len(),
            trace@.len() == rev@.len() - i,
            forall|p: int| 0 <= p < trace@.len() ==> trace@[p] == rev@[rev@.len() - 1 - p],
        decreases i,
    {
        i = i - 1;
        trace.push(rev[i]);
    }
    proof {
        reveal(walked);
        assert forall|p: int| 0 <= p < trace@.len() - 1 implies (#[trigger] trace@[p]).0 < trace@[p + 1].0
            && trace@[p].1 < trace@[p + 1].1 by {
            assert(trace@[p + 1] == rev@[rev@.len() - 1 - (p + 1)]);
            assert(rev@[rev@.len() - 1 - (p + 1)].0 > rev@[rev@.len() - 1 - (p + 1) + 1].0);
        }
        assert forall|p: int| 0 <= p < trace@.len() implies (#[trigger] trace@[p]).0 < a.len()
            && trace@[p].1 < b.len() && a[trace@[p].0 as int] == b[trace@[p].1 as int] by {
            assert(rev@[rev@.len() - 1 - p].0 < n);
        }
    }
    trace
}

/// Aligns `lhs` with `rhs` by Myers' algorithm: the trace holds matched index
/// pairs, increasing in both coordinates, and leaves out exactly as many
/// elements as the fewest insertions and deletions that turn `lhs` into `rhs`.
/// The lengths together stay within half the address space, as any two vectors
/// of strings do.
pub fn diff(lhs: &Vec<String>, rhs: &Vec<String>) -> (r: DiffResult)
    requires
        lhs@.len() + rhs@.len() <= usize::MAX / 2,
    ensures
        is_optimal_trace(lhs.deep_view(), rhs.deep_view(), r.trace@),
        lhs@.len() == 0 || rhs@.len() == 0 ==> r.trace@.len() == 0,
{
    let (table, dist) = forward(lhs, rhs);
    let trace = backtrack(lhs, rhs, &table, dist);
    proof {
        if trace@.len() > 0 {
            assert(trace@[0].0 < lhs@.len() && trace@[0].1 < rhs@.len());
        }
    }
    DiffResult::new(trace)
}

} // verus!
