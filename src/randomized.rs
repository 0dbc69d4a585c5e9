use vstd::prelude::*;
use rand::seq::SliceRandom;
use crate::point::{
    Point, dist2, is_closest, lemma_pair_of_indices, lemma_no_closer_of_indices,
    lemma_dist2_symmetric, lemma_dist2_bound, MAX_DIST2,
};
use crate::grid::{Grid, CELL_RANGE, cell_of};

verus! {

broadcast use vstd::seq_lib::group_to_multiset_ensures;

/// Relies on rand's `SliceRandom::shuffle` with the thread-local generator: it
/// only swaps elements, so the result is a permutation of the input.
#[verifier::external_body]
fn shuffle_points(points: &mut Vec<Point>)
    ensures
        final(points)@.len() == old(points)@.len(),
        final(points)@.to_multiset() == old(points)@.to_multiset(),
{
    points.shuffle(&mut rand::thread_rng());
}

/// Every point of `s` has non-negative coordinates.
pub open spec fn non_negative(s: Seq<Point>) -> bool {
    forall|k: int| 0 <= k < s.len() ==> #[trigger] s[k].x >= 0 && s[k].y >= 0
}

/// Smallest side `s >= 1` of a square cell with `s * s >= d`.
pub fn cell_side(d: u128) -> (s: u64)
    requires
        d <= MAX_DIST2,
    ensures
        s >= 1,
        d <= (s as int) * (s as int),
        s == 1 || (s - 1) * (s - 1) < d,
{
    if d <= 1 {
        return 1;
    }
    let mut lo: u64 = 1;
    let mut hi: u64 = 0x2_0000_0000;
    assert(d <= 0x2_0000_0000 * 0x2_0000_0000);
    while hi - lo > 1
        invariant
            1 <= lo < hi <= 0x2_0000_0000,
            (lo as int) * (lo as int) < d,
            d <= (hi as int) * (hi as int),
        decreases hi - lo,
    {
        let mid: u64 = lo + (hi - lo) / 2;
        assert((mid as int) * (mid as int) <= 0x2_0000_0000 * 0x2_0000_0000) by (nonlinear_arith)
            requires mid <= 0x2_0000_0000;
        if (mid as u128) * (mid as u128) >= d {
            hi = mid;
        } else {
            lo = mid;
        }
    }
    hi
}

/// The cell `(x, y)` and those of its eight neighbours that have no negative
/// coordinate.
pub fn neighbourhood(x: usize, y: usize) -> (r: Vec<(usize, usize)>)
    requires
        x < 0x8000_0000,
        y < 0x8000_0000,
    ensures
        forall|c: int| 0 <= c < r@.len() ==> #[trigger] r@[c].0 < CELL_RANGE && r@[c].1 < CELL_RANGE,
        forall|a: int, b: int|
            x - 1 <= a <= x + 1 && y - 1 <= b <= y + 1 && a >= 0 && b >= 0 ==> #[trigger] in_cells(
                r@,
                a,
                b,
            ),
{
    let mut cells: Vec<(usize, usize)> = vec![(x, y), (x + 1, y), (x + 1, y + 1), (x, y + 1)];
    proof {
        assert(cells@[0].0 == x && cells@[0].1 == y);
        assert(cells@[1].0 == x + 1 && cells@[1].1 == y);
        assert(cells@[2].0 == x + 1 && cells@[2].1 == y + 1);
        assert(cells@[3].0 == x && cells@[3].1 == y + 1);
        assert(in_cells(cells@, x as int, y as int));
        assert(in_cells(cells@, x + 1, y as int));
        assert(in_cells(cells@, x + 1, y + 1));
        assert(in_cells(cells@, x as int, y + 1));
    }
    if x > 0 {
        push_cell(&mut cells, x - 1, y);
        push_cell(&mut cells, x - 1, y + 1);
        if y > 0 {
            push_cell(&mut cells, x - 1, y - 1);
        }
    }
    if y > 0 {
        push_cell(&mut cells, x, y - 1);
        push_cell(&mut cells, x + 1, y - 1);
    }
    cells
}

/// Appends the cell `(a, b)`; the cells listed before stay listed.
fn push_cell(cells: &mut Vec<(usize, usize)>, a: usize, b: usize)
    ensures
        final(cells)@ == old(cells)@.push((a, b)),
        in_cells(final(cells)@, a as int, b as int),
        forall|u: int, v: int| #[trigger] in_cells(old(cells)@, u, v) ==> in_cells(final(cells)@, u, v),
{
    cells.push((a, b));
    proof {
        let n = old(cells)@.len() as int;
        assert(cells@[n] == (a, b));
        assert forall|u: int, v: int| #[trigger] in_cells(old(cells)@, u, v) implies in_cells(
            cells@,
            u,
            v,
        ) by {
            let c = choose|c: int| 0 <= c < old(cells)@.len() && old(cells)@[c].0 == u && old(cells)@[c].1 == v;
            assert(cells@[c] == old(cells)@[c]);
        }
    }
}

/// The cell `(a, b)` is listed in `cells`.
pub open spec fn in_cells(cells: Seq<(usize, usize)>, a: int, b: int) -> bool {
    exists|c: int| 0 <= c < cells.len() && cells[c].0 == a && cells[c].1 == b
}


/// `q` is one of the first `i` points of `s`.
pub open spec fn seen(s: Seq<Point>, i: int, q: Point) -> bool {
    exists|k: int| 0 <= k < i && s[k] == q
}

/// `g` holds the first `i` points of `s`, each in its own cell, and nothing else.
pub open spec fn grid_holds(g: Grid, s: Seq<Point>, i: int) -> bool {
    &&& g.wf()
    &&& forall|k: int|
        0 <= k < i ==> g.cell(cell_of(s[k].x as int, g.spec_delta()), cell_of(s[k].y as int, g.spec_delta())).contains(#[trigger] s[k])
    &&& forall|cx: int, cy: int, t: int|
        0 <= t < g.cell(cx, cy).len() ==> seen(s, i, #[trigger] g.cell(cx, cy)[t])
}

/// Two coordinates at most `side` apart lie in the same or adjacent cells.
proof fn lemma_near_cell(a: int, b: int, side: int)
    requires
        0 <= a,
        0 <= b,
        1 <= side,
        (a - b) * (a - b) <= side * side,
    ensures
        cell_of(a, side) - 1 <= cell_of(b, side) <= cell_of(a, side) + 1,
{
    if a - b > side {
        assert((a - b) * (a - b) > side * side) by (nonlinear_arith)
            requires a - b > side, side >= 1;
    }
    if b - a > side {
        assert((b - a) * (b - a) > side * side) by (nonlinear_arith)
            requires b - a > side, side >= 1;
        assert((b - a) * (b - a) == (a - b) * (a - b)) by (nonlinear_arith);
    }
    vstd::arithmetic::div_mod::lemma_fundamental_div_mod(a, side);
    vstd::arithmetic::div_mod::lemma_fundamental_div_mod(b, side);
    let qa = a / side;
    let qb = b / side;
    let ra = a % side;
    let rb = b % side;
    assert(0 <= ra < side && 0 <= rb < side);
    if qb >= qa + 2 {
        assert(side * qb >= side * qa + 2 * side) by (nonlinear_arith)
            requires qb >= qa + 2, side >= 1;
    }
    if qa >= qb + 2 {
        assert(side * qa >= side * qb + 2 * side) by (nonlinear_arith)
            requires qa >= qb + 2, side >= 1;
    }
}

/// A grid that holds the first `i` points of `s`, with cells whose side squared
/// is at least `d`, has every one of them that lies within squared distance `d`
/// of a point `p` in the cell of `p` or in one of the eight around it.
pub proof fn lemma_grid_finds_close_points(g: Grid, s: Seq<Point>, i: int, p: Point, k: int, d: int)
    requires
        grid_holds(g, s, i),
        0 <= k < i <= s.len(),
        non_negative(s),
        p.x >= 0,
        p.y >= 0,
        d <= g.spec_delta() * g.spec_delta(),
        dist2(p, s[k]) <= d,
    ensures
        cell_of(p.x as int, g.spec_delta()) - 1 <= cell_of(s[k].x as int, g.spec_delta())
            <= cell_of(p.x as int, g.spec_delta()) + 1,
        cell_of(p.y as int, g.spec_delta()) - 1 <= cell_of(s[k].y as int, g.spec_delta())
            <= cell_of(p.y as int, g.spec_delta()) + 1,
        g.cell(cell_of(s[k].x as int, g.spec_delta()), cell_of(s[k].y as int, g.spec_delta())).contains(
            s[k],
        ),
{
    g.lemma_delta_positive();
    let side = g.spec_delta();
    let kx = s[k].x as int;
    let ky = s[k].y as int;
    assert((p.x - kx) * (p.x - kx) <= side * side) by (nonlinear_arith)
        requires dist2(p, s[k]) <= d, d <= side * side,
            dist2(p, s[k]) == (p.x - kx) * (p.x - kx) + (p.y - ky) * (p.y - ky);
    assert((p.y - ky) * (p.y - ky) <= side * side) by (nonlinear_arith)
        requires dist2(p, s[k]) <= d, d <= side * side,
            dist2(p, s[k]) == (p.x - kx) * (p.x - kx) + (p.y - ky) * (p.y - ky);
    lemma_near_cell(p.x as int, kx, side);
    lemma_near_cell(p.y as int, ky, side);
}

/// Adds the `i`-th point of `points` to a grid that holds the ones before it.
fn insert_next(grid: &mut Grid, points: &Vec<Point>, i: usize)
    requires
        i < points@.len(),
        non_negative(points@),
        grid_holds(*old(grid), points@, i as int),
    ensures
        grid_holds(*final(grid), points@, i + 1),
        final(grid).spec_delta() == old(grid).spec_delta(),
{
    let ghost s = points@;
    let ghost g0 = *grid;
    let p = points[i];
    grid.insert(&p);
    proof {
        let d = g0.spec_delta();
        assert forall|k: int| 0 <= k < i + 1 implies grid.cell(
            cell_of(s[k].x as int, d),
            cell_of(s[k].y as int, d),
        ).contains(#[trigger] s[k]) by {
            let cx = cell_of(s[k].x as int, d);
            let cy = cell_of(s[k].y as int, d);
            let _ = grid.cell(cx, cy);
            if k < i {
                let t = choose|t: int| 0 <= t < g0.cell(cx, cy).len() && g0.cell(cx, cy)[t] == s[k];
                assert(grid.cell(cx, cy)[t] == s[k]);
            } else {
                assert(grid.cell(cx, cy) == g0.cell(cx, cy).push(p));
                assert(grid.cell(cx, cy)[g0.cell(cx, cy).len() as int] == s[k]);
            }
        }
        assert forall|cx: int, cy: int, t: int|
            0 <= t < grid.cell(cx, cy).len() implies seen(s, i + 1, #[trigger] grid.cell(cx, cy)[t]) by {
            if t < g0.cell(cx, cy).len() {
                assert(grid.cell(cx, cy)[t] == g0.cell(cx, cy)[t]);
                assert(seen(s, i as int, g0.cell(cx, cy)[t]));
                let k = choose|k: int| 0 <= k < i && s[k] == g0.cell(cx, cy)[t];
                assert(0 <= k < i + 1 && s[k] == grid.cell(cx, cy)[t]);
            } else {
                assert(grid.cell(cx, cy)[t] == s[i as int]);
            }
        }
    }
}

/// A grid of cells of side `side` that holds the first `i` points of `points`.
fn rebuild(points: &Vec<Point>, i: usize, side: u64) -> (g: Grid)
    requires
        i <= points@.len(),
        non_negative(points@),
        side >= 1,
    ensures
        grid_holds(g, points@, i as int),
        g.spec_delta() == side,
{
    let mut g = Grid::new(side);
    let mut j: usize = 0;
    while j < i
        invariant
            i <= points@.len(),
            non_negative(points@),
            0 <= j <= i,
            grid_holds(g, points@, j as int),
            g.spec_delta() == side,
        decreases i - j,
    {
        insert_next(&mut g, points, j);
        j += 1;
    }
    g
}


/// Closest pair of `points` by the incremental grid method, taking the points in
/// the order given: each new point is compared with the points of its own and the
/// eight surrounding cells, and the grid is rebuilt with a smaller cell side each
/// time the best distance improves.
pub fn solve_in_order(points: &Vec<Point>) -> (r: (Point, Point, u128))
    requires
        points@.len() >= 2,
        non_negative(points@),
    ensures
        is_closest(points@.to_multiset(), r.0, r.1, r.2 as int),
{
    let ghost s = points@;
    let n = points.len();
    let mut p1 = points[0];
    let mut p2 = points[1];
    let mut dist = p1.squared_dist(&p2);
    proof {
        lemma_dist2_bound(p1, p2);
    }
    let mut grid = Grid::new(cell_side(dist));
    insert_next(&mut grid, points, 0);
    insert_next(&mut grid, points, 1);
    let ghost mut bi: int = 0;
    let ghost mut bj: int = 1;
    let mut i: usize = 2;
    while i < n
        invariant
            s == points@,
            n == s.len(),
            2 <= i <= n,
            non_negative(s),
            0 <= bi < i,
            0 <= bj < i,
            bi != bj,
            s[bi] == p1,
            s[bj] == p2,
            dist == dist2(p1, p2),
            forall|k: int, l: int| 0 <= k < l < i ==> dist <= #[trigger] dist2(s[k], s[l]),
            grid_holds(grid, s, i as int),
            dist <= grid.spec_delta() * grid.spec_delta(),
            grid.spec_delta() >= 1,
        decreases n - i,
    {
        let p = points[i];
        let (x, y) = grid.get_coordinates(p.x, p.y);
        let cells = neighbourhood(x, y);
        let ghost d0 = dist as int;
        let mut changed = false;
        let mut c: usize = 0;
        while c < cells.len()
            invariant
                s == points@,
                n == s.len(),
                2 <= i < n,
                p == s[i as int],
                0 <= bi <= i,
                0 <= bj < i,
                bi != bj,
                s[bi] == p1,
                s[bj] == p2,
                dist == dist2(p1, p2),
                dist <= d0,
                changed == (dist < d0),
                forall|k: int, l: int| 0 <= k < l < i ==> dist <= #[trigger] dist2(s[k], s[l]),
                grid_holds(grid, s, i as int),
                d0 <= grid.spec_delta() * grid.spec_delta(),
                grid.spec_delta() >= 1,
                forall|e: int| 0 <= e < cells@.len() ==> #[trigger] cells@[e].0 < CELL_RANGE && cells@[e].1 < CELL_RANGE,
                0 <= c <= cells@.len(),
                forall|e: int, t: int|
                    0 <= e < c && 0 <= t < grid.cell(cells@[e].0 as int, cells@[e].1 as int).len()
                        ==> dist <= dist2(p, #[trigger] grid.cell(cells@[e].0 as int, cells@[e].1 as int)[t]),
            decreases cells@.len() - c,
        {
            let (cx, cy) = cells[c];
            assert(cells@[c as int].0 < CELL_RANGE && cells@[c as int].1 < CELL_RANGE);
            if let Some(list) = grid.get_cell(cx, cy) {
                let ghost cell = grid.cell(cx as int, cy as int);
                let mut t: usize = 0;
                while t < list.len()
                    invariant
                        s == points@,
                        n == s.len(),
                        2 <= i < n,
                        p == s[i as int],
                        list@ == cell,
                        cell == grid.cell(cx as int, cy as int),
                        0 <= bi <= i,
                        0 <= bj < i,
                        bi != bj,
                        s[bi] == p1,
                        s[bj] == p2,
                        dist == dist2(p1, p2),
                        dist <= d0,
                        changed == (dist < d0),
                        forall|k: int, l: int| 0 <= k < l < i ==> dist <= #[trigger] dist2(s[k], s[l]),
                        grid_holds(grid, s, i as int),
                        d0 <= grid.spec_delta() * grid.spec_delta(),
                        grid.spec_delta() >= 1,
                        0 <= t <= list@.len(),
                        forall|u: int| 0 <= u < t ==> dist <= dist2(p, #[trigger] cell[u]),
                        forall|e: int, u: int|
                            0 <= e < c && 0 <= u < grid.cell(cells@[e].0 as int, cells@[e].1 as int).len()
                                ==> dist <= dist2(p, #[trigger] grid.cell(cells@[e].0 as int, cells@[e].1 as int)[u]),
                    decreases list@.len() - t,
                {
                    let q = list[t];
                    let d = p.squared_dist(&q);
                    if d < dist {
                        proof {
                            assert(seen(s, i as int, grid.cell(cx as int, cy as int)[t as int]));
                            let k = choose|k: int| 0 <= k < i && s[k] == q;
                            bi = i as int;
                            bj = k;
                        }
                        p1 = p;
                        p2 = q;
                        dist = d;
                        changed = true;
                    }
                    t += 1;
                }
            }
            c += 1;
        }
        proof {
            let side = grid.spec_delta();
            assert forall|k: int| 0 <= k < i implies dist <= #[trigger] dist2(s[k], s[i as int]) by {
                lemma_dist2_symmetric(s[k], p);
                if dist2(p, s[k]) < d0 {
                    lemma_grid_finds_close_points(grid, s, i as int, p, k, d0);
                    let kx = s[k].x as int;
                    let ky = s[k].y as int;
                    let a = cell_of(kx, side);
                    let b = cell_of(ky, side);
                    assert(a >= 0 && b >= 0);
                    assert(in_cells(cells@, a, b));
                    let e = choose|e: int| 0 <= e < cells@.len() && cells@[e].0 == a && cells@[e].1 == b;
                    assert(grid.cell(a, b).contains(s[k]));
                    let u = choose|u: int| 0 <= u < grid.cell(a, b).len() && grid.cell(a, b)[u] == s[k];
                    assert(dist <= dist2(p, grid.cell(cells@[e].0 as int, cells@[e].1 as int)[u]));
                }
            }
            lemma_dist2_bound(p1, p2);
        }
        if changed {
            grid = rebuild(points, i, cell_side(dist));
        }
        insert_next(&mut grid, points, i);
        i += 1;
    }
    proof {
        lemma_pair_of_indices(s, bi, bj);
        lemma_no_closer_of_indices(s, dist as int);
    }
    (p1, p2, dist)
}

/// Closest pair of `points` by the randomized incremental method. The points are
/// first put in a random order, which is left in `points`; the coordinates must
/// not be negative.
pub fn solve(points: &mut Vec<Point>) -> (r: (Point, Point, u128))
    requires
        old(points)@.len() >= 2,
        non_negative(old(points)@),
    ensures
        final(points)@.to_multiset() == old(points)@.to_multiset(),
        is_closest(old(points)@.to_multiset(), r.0, r.1, r.2 as int),
{
    shuffle_points(points);
    proof {
        assert forall|k: int| 0 <= k < points@.len() implies #[trigger] points@[k].x >= 0
            && points@[k].y >= 0 by {
            assert(points@.contains(points@[k]));
            assert(points@.to_multiset().count(points@[k]) > 0);
            assert(old(points)@.contains(points@[k]));
        }
    }
    solve_in_order(points)
}

} // verus!
