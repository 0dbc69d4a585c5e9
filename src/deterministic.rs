use vstd::prelude::*;
use crate::point::{
    Point, dist2, is_closest, pair_in, no_closer, lemma_pair_of_indices, lemma_no_closer_of_indices,
    lemma_dist2_bound, MAX_DIST2,
};
use crate::brute::{brute_force, first_closest};
use crate::sorting::{sorted_by, permuted_within, sort_range, merge_runs, lemma_split_multiset};

verus! {

broadcast use vstd::seq_lib::group_to_multiset_ensures;

/// `p` lies at least `sqrt(d)` away from the vertical line `x = msum / 2`.
pub open spec fn x_far(p: Point, msum: int, d: int) -> bool {
    (2 * p.x - msum) * (2 * p.x - msum) >= 4 * d
}

/// `top - bottom` is at least `sqrt(d)`.
pub open spec fn gap_at_least(bottom: int, top: int, d: int) -> bool {
    top - bottom >= 0 && (top - bottom) * (top - bottom) >= d
}

proof fn lemma_square_mono(u: int, v: int)
    requires
        0 <= u <= v,
    ensures
        u * u <= v * v,
{
    assert(u * u <= v * v) by (nonlinear_arith)
        requires 0 <= u <= v;
}

/// A point left of the dividing line and one right of it are at least `d` apart
/// when either is `x_far`.
proof fn lemma_far_across(a: Point, b: Point, msum: int, d: int)
    requires
        2 * a.x <= msum,
        2 * b.x >= msum,
        x_far(a, msum, d) || x_far(b, msum, d),
    ensures
        d <= dist2(a, b),
{
    let u = b.x - a.x;
    assert(0 <= (a.y - b.y) * (a.y - b.y)) by (nonlinear_arith);
    if x_far(b, msum, d) {
        lemma_square_mono(2 * b.x - msum, 2 * u);
    } else {
        lemma_square_mono(msum - 2 * a.x, 2 * u);
        assert((msum - 2 * a.x) * (msum - 2 * a.x) == (2 * a.x - msum) * (2 * a.x - msum)) by (nonlinear_arith);
    }
    assert((2 * u) * (2 * u) == 4 * (u * u)) by (nonlinear_arith);
    assert((a.x - b.x) * (a.x - b.x) == u * u) by (nonlinear_arith)
        requires u == b.x - a.x;
}

/// Two points whose `y` differ by at least `sqrt(d)` are at least `d` apart.
proof fn lemma_far_in_y(a: Point, b: Point, d: int)
    requires
        gap_at_least(a.y as int, b.y as int, d) || gap_at_least(b.y as int, a.y as int, d),
    ensures
        d <= dist2(a, b),
{
    assert(0 <= (a.x - b.x) * (a.x - b.x)) by (nonlinear_arith);
    assert((a.y - b.y) * (a.y - b.y) == (b.y - a.y) * (b.y - a.y)) by (nonlinear_arith);
}

/// A gap from `bottom` to `top` is also one from any lower `bottom` or to any
/// higher `top`.
proof fn lemma_gap_widen(bottom: int, top: int, bottom2: int, top2: int, d: int)
    requires
        gap_at_least(bottom, top, d),
        bottom2 <= bottom,
        top <= top2,
    ensures
        gap_at_least(bottom2, top2, d),
{
    lemma_square_mono(top - bottom, top2 - bottom2);
}

/// Every point of `t` satisfies what every point of `s` does, when the two hold
/// the same points.
proof fn lemma_all_of_permutation(s: Seq<Point>, t: Seq<Point>, f: spec_fn(Point) -> bool)
    requires
        s.to_multiset() == t.to_multiset(),
        forall|k: int| 0 <= k < s.len() ==> #[trigger] f(s[k]),
    ensures
        forall|k: int| 0 <= k < t.len() ==> #[trigger] f(t[k]),
{
    assert forall|k: int| 0 <= k < t.len() implies #[trigger] f(t[k]) by {
        assert(t.contains(t[k]));
        assert(s.to_multiset().count(t[k]) > 0);
        assert(s.contains(t[k]));
    }
}

fn is_x_far(p: &Point, msum: i64, d: u128) -> (r: bool)
    requires
        -0x1_0000_0000 <= msum <= 0x1_0000_0000,
        d <= MAX_DIST2,
    ensures
        r == x_far(*p, msum as int, d as int),
{
    let g: i64 = 2 * (p.x as i64) - msum;
    let a: u128 = if g < 0 { (0 - g) as u128 } else { g as u128 };
    assert(a * a <= 0x4_0000_0000u128 * 0x4_0000_0000u128) by (nonlinear_arith)
        requires a <= 0x4_0000_0000u128;
    assert(a * a == g * g) by (nonlinear_arith)
        requires a == g || a == -g;
    a * a >= 4 * d
}

fn has_gap(bottom: i32, top: i32, d: u128) -> (r: bool)
    ensures
        r == gap_at_least(bottom as int, top as int, d as int),
{
    let g: i64 = top as i64 - bottom as i64;
    if g < 0 {
        return false;
    }
    let a: u128 = g as u128;
    assert(a * a <= 0x1_0000_0000u128 * 0x1_0000_0000u128) by (nonlinear_arith)
        requires a <= 0x1_0000_0000u128;
    a * a >= d
}


/// For positions `lo .. hi` in ascending order of `x` and a dividing line between
/// positions `m - 1` and `m`, the left part lies left of the line, the right part
/// right of it, and both parts are in order of `x`.
proof fn lemma_split_at_line(o: Seq<Point>, lo: int, m: int, hi: int, msum: int)
    requires
        0 <= lo < m < hi <= o.len(),
        sorted_by(o.subrange(lo, hi), false),
        2 * o[m - 1].x <= msum <= 2 * o[m].x,
    ensures
        forall|k: int| lo <= k < m ==> 2 * #[trigger] o[k].x <= msum,
        forall|k: int| m <= k < hi ==> 2 * #[trigger] o[k].x >= msum,
        sorted_by(o.subrange(lo, m), false),
        sorted_by(o.subrange(m, hi), false),
{
    let os = o.subrange(lo, hi);
    assert(o[m - 1] == os[m - 1 - lo] && o[m] == os[m - lo]);
    assert forall|k: int| lo <= k < m implies 2 * #[trigger] o[k].x <= msum by {
        assert(o[k] == os[k - lo]);
    }
    assert forall|k: int| m <= k < hi implies 2 * #[trigger] o[k].x >= msum by {
        assert(o[k] == os[k - lo]);
    }
    let ol = o.subrange(lo, m);
    let or = o.subrange(m, hi);
    assert forall|a: int, b: int| 0 <= a < b < ol.len() implies ol[a].x <= ol[b].x by {
        assert(ol[a] == os[a] && ol[b] == os[b]);
    }
    assert forall|a: int, b: int| 0 <= a < b < or.len() implies or[a].x <= or[b].x by {
        assert(or[a] == os[a + m - lo] && or[b] == os[b + m - lo]);
    }
}

/// After both parts were solved (each permuted within itself and left in order
/// of `y`), they still lie on their sides of the line and are in order of `y`.
proof fn lemma_halves_after(o: Seq<Point>, v: Seq<Point>, lo: int, m: int, hi: int, msum: int)
    requires
        0 <= lo < m < hi <= o.len(),
        v.len() == o.len(),
        forall|k: int| lo <= k < m ==> 2 * #[trigger] o[k].x <= msum,
        forall|k: int| m <= k < hi ==> 2 * #[trigger] o[k].x >= msum,
        v.subrange(lo, m).to_multiset() == o.subrange(lo, m).to_multiset(),
        v.subrange(m, hi).to_multiset() == o.subrange(m, hi).to_multiset(),
        sorted_by(v.subrange(lo, m), true),
        sorted_by(v.subrange(m, hi), true),
    ensures
        forall|k: int| lo <= k < m ==> 2 * #[trigger] v[k].x <= msum,
        forall|k: int| m <= k < hi ==> 2 * #[trigger] v[k].x >= msum,
        forall|a: int, b: int| lo <= a < b < m ==> #[trigger] v[a].y <= #[trigger] v[b].y,
        forall|a: int, b: int| m <= a < b < hi ==> #[trigger] v[a].y <= #[trigger] v[b].y,
{
    let left_of = |p: Point| 2 * p.x <= msum;
    let right_of = |p: Point| 2 * p.x >= msum;
    let ol = o.subrange(lo, m);
    let or = o.subrange(m, hi);
    let ls = v.subrange(lo, m);
    let rs = v.subrange(m, hi);
    assert forall|k: int| 0 <= k < ol.len() implies #[trigger] left_of(ol[k]) by {
        assert(ol[k] == o[k + lo]);
    }
    assert forall|k: int| 0 <= k < or.len() implies #[trigger] right_of(or[k]) by {
        assert(or[k] == o[k + m]);
    }
    lemma_all_of_permutation(ol, ls, left_of);
    lemma_all_of_permutation(or, rs, right_of);
    assert forall|k: int| lo <= k < m implies 2 * #[trigger] v[k].x <= msum by {
        assert(ls[k - lo] == v[k]);
        assert(left_of(ls[k - lo]));
    }
    assert forall|k: int| m <= k < hi implies 2 * #[trigger] v[k].x >= msum by {
        assert(rs[k - m] == v[k]);
        assert(right_of(rs[k - m]));
    }
    assert forall|a: int, b: int| lo <= a < b < m implies #[trigger] v[a].y <= #[trigger] v[b].y by {
        assert(ls[a - lo] == v[a] && ls[b - lo] == v[b]);
    }
    assert forall|a: int, b: int| m <= a < b < hi implies #[trigger] v[a].y <= #[trigger] v[b].y by {
        assert(rs[a - m] == v[a] && rs[b - m] == v[b]);
    }
}

/// No pair of `lo .. hi` is closer than `d` when none is within either part
/// (closer than `dl`, `dr`, both at least `d`) nor across them.
proof fn lemma_combine(v: Seq<Point>, lo: int, m: int, hi: int, dl: int, dr: int, d: int)
    requires
        0 <= lo < m < hi <= v.len(),
        no_closer(v.subrange(lo, m).to_multiset(), dl),
        no_closer(v.subrange(m, hi).to_multiset(), dr),
        d <= dl,
        d <= dr,
        forall|a: int, b: int| lo <= a < m && m <= b < hi ==> d <= dist2(#[trigger] v[a], #[trigger] v[b]),
    ensures
        no_closer(v.subrange(lo, hi).to_multiset(), d),
{
    let ls = v.subrange(lo, m);
    let rs = v.subrange(m, hi);
    let ss = v.subrange(lo, hi);
    assert forall|a: int, b: int| 0 <= a < b < ss.len() implies d <= #[trigger] dist2(ss[a], ss[b]) by {
        assert(ss[a] == v[a + lo] && ss[b] == v[b + lo]);
        if b + lo < m {
            lemma_pair_of_indices(ls, a, b);
            assert(ls[a] == ss[a] && ls[b] == ss[b]);
        } else if a + lo >= m {
            lemma_pair_of_indices(rs, a + lo - m, b + lo - m);
            assert(rs[a + lo - m] == ss[a] && rs[b + lo - m] == ss[b]);
        }
    }
    lemma_no_closer_of_indices(ss, d);
}

/// The strip search of the divide-and-conquer solver: starting from the pair
/// `(p1, p2)` at squared distance `dist`, the closest pair found between a left
/// point `lo .. m` and a right point `m .. hi` that is closer, where the left
/// points have `2x <= msum`, the right ones `2x >= msum`, and each side is in
/// ascending order of `y`.
fn strip_search(
    points: &Vec<Point>,
    lo: usize,
    m: usize,
    hi: usize,
    msum: i64,
    p1: Point,
    p2: Point,
    dist: u128,
) -> (r: (Point, Point, u128))
    requires
        lo < m < hi <= points@.len(),
        -0x1_0000_0000 <= msum <= 0x1_0000_0000,
        forall|k: int| lo <= k < m ==> 2 * #[trigger] points@[k].x <= msum,
        forall|k: int| m <= k < hi ==> 2 * #[trigger] points@[k].x >= msum,
        forall|a: int, b: int| lo <= a < b < m ==> #[trigger] points@[a].y <= #[trigger] points@[b].y,
        forall|a: int, b: int| m <= a < b < hi ==> #[trigger] points@[a].y <= #[trigger] points@[b].y,
        dist == dist2(p1, p2),
        pair_in(points@.subrange(lo as int, hi as int).to_multiset(), p1, p2),
    ensures
        r.2 == dist2(r.0, r.1),
        r.2 <= dist,
        pair_in(points@.subrange(lo as int, hi as int).to_multiset(), r.0, r.1),
        forall|a: int, b: int|
            lo <= a < m && m <= b < hi ==> r.2 <= dist2(#[trigger] points@[a], #[trigger] points@[b]),
{
    let ghost d0 = dist as int;
    let ghost v = points@;
    let ghost ss = v.subrange(lo as int, hi as int);
    let mut p1 = p1;
    let mut p2 = p2;
    let mut dist = dist;
    // lowest right point that can still be in the window of a left point
    let mut j: usize = m;
    // the y of the last left point whose window was searched
    let ghost mut ya: int = i32::MIN as int;
    let mut i: usize = lo;
    while i < m
        invariant
            v == points@,
            ss == v.subrange(lo as int, hi as int),
            hi <= v.len(),
            lo < m < hi,
            lo <= i <= m <= j <= hi,
            -0x1_0000_0000 <= msum <= 0x1_0000_0000,
            forall|k: int| lo <= k < m ==> 2 * #[trigger] v[k].x <= msum,
            forall|k: int| m <= k < hi ==> 2 * #[trigger] v[k].x >= msum,
            forall|a: int, b: int| lo <= a < b < m ==> #[trigger] v[a].y <= #[trigger] v[b].y,
            forall|a: int, b: int| m <= a < b < hi ==> #[trigger] v[a].y <= #[trigger] v[b].y,
            dist == dist2(p1, p2),
            dist <= d0,
            pair_in(ss.to_multiset(), p1, p2),
            forall|a: int, b: int| lo <= a < i && m <= b < hi ==> dist <= dist2(#[trigger] v[a], #[trigger] v[b]),
            forall|b: int| m <= b < j ==> x_far(#[trigger] v[b], msum as int, dist as int)
                || gap_at_least(v[b].y as int, ya, dist as int),
            forall|a: int| i <= a < m ==> ya <= #[trigger] v[a].y,
        decreases m - i,
    {
        let pi = points[i];
        proof {
            lemma_dist2_bound(p1, p2);
        }
        if is_x_far(&pi, msum, dist) {
            proof {
                assert forall|b: int| m <= b < hi implies dist <= dist2(pi, #[trigger] v[b]) by {
                    lemma_far_across(pi, v[b], msum as int, dist as int);
                }
            }
            i += 1;
            continue;
        }
        proof {
            assert forall|b: int| m <= b < j implies x_far(#[trigger] v[b], msum as int, dist as int)
                || gap_at_least(v[b].y as int, pi.y as int, dist as int) by {
                if !x_far(v[b], msum as int, dist as int) {
                    lemma_gap_widen(v[b].y as int, ya, v[b].y as int, pi.y as int, dist as int);
                }
            }
            ya = pi.y as int;
        }
        // skip the right points below the window or off the strip
        while j < hi
            invariant
                v == points@,
                lo < m < hi <= v.len(),
                lo <= i < m <= j <= hi,
                pi == v[i as int],
                ya == pi.y,
                -0x1_0000_0000 <= msum <= 0x1_0000_0000,
                dist == dist2(p1, p2),
                dist <= MAX_DIST2,
                forall|b: int| m <= b < j ==> x_far(#[trigger] v[b], msum as int, dist as int)
                    || gap_at_least(v[b].y as int, ya, dist as int),
            decreases hi - j,
        {
            let pj = points[j];
            if is_x_far(&pj, msum, dist) {
                j += 1;
                continue;
            }
            if !has_gap(pj.y, pi.y, dist) {
                break;
            }
            j += 1;
        }
        // compare with the right points inside the window
        let mut r: usize = j;
        while r < hi && !has_gap(pi.y, points[r].y, dist)
            invariant
                v == points@,
                ss == v.subrange(lo as int, hi as int),
                lo < m < hi <= v.len(),
                lo <= i < m <= j <= r <= hi,
                pi == v[i as int],
                ya == pi.y,
                -0x1_0000_0000 <= msum <= 0x1_0000_0000,
                forall|k: int| lo <= k < m ==> 2 * #[trigger] v[k].x <= msum,
                forall|k: int| m <= k < hi ==> 2 * #[trigger] v[k].x >= msum,
                dist == dist2(p1, p2),
                dist <= d0,
                pair_in(ss.to_multiset(), p1, p2),
                forall|a: int, b: int| lo <= a < i && m <= b < hi ==> dist <= dist2(#[trigger] v[a], #[trigger] v[b]),
                forall|b: int| m <= b < j ==> x_far(#[trigger] v[b], msum as int, dist as int)
                    || gap_at_least(v[b].y as int, ya, dist as int),
                forall|b: int| j <= b < r ==> dist <= dist2(pi, #[trigger] v[b]),
                dist <= MAX_DIST2,
            decreases hi - r,
        {
            let pr = points[r];
            proof {
                lemma_dist2_bound(p1, p2);
            }
            if is_x_far(&pr, msum, dist) {
                proof {
                    lemma_far_across(pi, pr, msum as int, dist as int);
                }
                r += 1;
                continue;
            }
            let d = pi.squared_dist(&pr);
            if d < dist {
                proof {
                    lemma_pair_of_indices(ss, i - lo, r - lo);
                    assert(ss[i - lo] == pi && ss[r - lo] == pr);
                }
                p1 = pi;
                p2 = pr;
                dist = d;
                proof {
                    lemma_dist2_bound(p1, p2);
                }
            }
            r += 1;
        }
        proof {
            assert forall|b: int| m <= b < hi implies dist <= dist2(pi, #[trigger] v[b]) by {
                if b < j {
                    if x_far(v[b], msum as int, dist as int) {
                        lemma_far_across(pi, v[b], msum as int, dist as int);
                    } else {
                        lemma_far_in_y(pi, v[b], dist as int);
                    }
                } else if b >= r {
                    lemma_gap_widen(pi.y as int, v[r as int].y as int, pi.y as int, v[b].y as int, dist as int);
                    lemma_far_in_y(pi, v[b], dist as int);
                }
            }
        }
        i += 1;
    }
    (p1, p2, dist)
}

/// Closest pair of the positions `lo .. hi` of `points`, which are in ascending
/// order of `x`; leaves them in ascending order of `y`.
#[verifier::rlimit(30)]
fn divide_and_conquer(points: &mut Vec<Point>, lo: usize, hi: usize) -> (r: (Point, Point, u128))
    requires
        lo + 2 <= hi <= old(points)@.len(),
        sorted_by(old(points)@.subrange(lo as int, hi as int), false),
    ensures
        permuted_within(old(points)@, final(points)@, lo as int, hi as int),
        sorted_by(final(points)@.subrange(lo as int, hi as int), true),
        is_closest(old(points)@.subrange(lo as int, hi as int).to_multiset(), r.0, r.1, r.2 as int),
        hi - lo <= 5 ==> first_closest(
            final(points)@.subrange(lo as int, hi as int),
            r.0,
            r.1,
            r.2 as int,
        ),
    decreases hi - lo,
{
    let ghost o = points@;
    let n: usize = hi - lo;
    if n <= 5 {
        sort_range(points, lo, hi, true);
        let r = brute_force(vstd::slice::slice_subrange(points.as_slice(), lo, hi));
        return r;
    }
    let m: usize = lo + n / 2;
    // twice the x of the dividing line
    let msum: i64 = if n % 2 == 0 {
        points[m - 1].x as i64 + points[m].x as i64
    } else {
        2 * (points[m].x as i64)
    };
    proof {
        let os = o.subrange(lo as int, hi as int);
        assert(os[m - 1 - lo] == o[m - 1] && os[m - lo] == o[m as int]);
        lemma_split_at_line(o, lo as int, m as int, hi as int, msum as int);
    }
    let (p1l, p2l, dl) = divide_and_conquer(points, lo, m);
    let ghost mid = points@;
    proof {
        assert(mid.subrange(m as int, hi as int) =~= o.subrange(m as int, hi as int));
    }
    let (p1r, p2r, dr) = divide_and_conquer(points, m, hi);
    let ghost v = points@;
    let ghost ls = v.subrange(lo as int, m as int);
    let ghost rs = v.subrange(m as int, hi as int);
    let ghost ss = v.subrange(lo as int, hi as int);
    proof {
        assert(ls =~= mid.subrange(lo as int, m as int));
        lemma_split_multiset(o, lo as int, m as int, hi as int);
        lemma_split_multiset(v, lo as int, m as int, hi as int);
        lemma_halves_after(o, v, lo as int, m as int, hi as int, msum as int);
        lemma_dist2_bound(p1l, p2l);
        lemma_dist2_bound(p1r, p2r);
    }
    // the better of the two halves
    let p1: Point;
    let p2: Point;
    let dist: u128;
    if dl <= dr {
        p1 = p1l;
        p2 = p2l;
        dist = dl;
    } else {
        p1 = p1r;
        p2 = p2r;
        dist = dr;
    }
    proof {
        assert(pair_in(ss.to_multiset(), p1, p2));
    }
    let (p1, p2, dist) = strip_search(points, lo, m, hi, msum, p1, p2, dist);
    proof {
        lemma_combine(v, lo as int, m as int, hi as int, dl as int, dr as int, dist as int);
    }
    merge_runs(points, lo, m, hi, true);
    (p1, p2, dist)
}


/// Closest pair of `points` by divide and conquer. Up to five points are left as
/// they are and scanned as `brute_force` does; more are sorted by `x`, split at
/// the middle, solved on each half, and joined by a search of the strip around
/// the dividing line, which leaves them in ascending order of `y`.
pub fn solve(points: &mut Vec<Point>) -> (r: (Point, Point, u128))
    requires
        old(points)@.len() >= 2,
    ensures
        final(points)@.to_multiset() == old(points)@.to_multiset(),
        is_closest(old(points)@.to_multiset(), r.0, r.1, r.2 as int),
        old(points)@.len() <= 5 ==> final(points)@ == old(points)@ && first_closest(
            old(points)@,
            r.0,
            r.1,
            r.2 as int,
        ),
        old(points)@.len() > 5 ==> sorted_by(final(points)@, true),
{
    let ghost o = points@;
    let n = points.len();
    if n <= 5 {
        return brute_force(points.as_slice());
    }
    sort_range(points, 0, n, false);
    let r = divide_and_conquer(points, 0, n);
    proof {
        assert(o.subrange(0, n as int) =~= o);
        assert(points@.subrange(0, n as int) =~= points@);
    }
    r
}

} // verus!
