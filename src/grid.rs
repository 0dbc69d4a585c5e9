use vstd::prelude::*;
use std::collections::HashMap;
use crate::point::Point;

verus! {

broadcast use vstd::std_specs::hash::group_hash_axioms;

/// Number of cell columns and rows a grid can address.
pub const CELL_RANGE: u64 = 0x1_0000_0000;

/// Key under which the cell `(cx, cy)` is stored.
pub open spec fn cell_key(cx: int, cy: int) -> int {
    cx * CELL_RANGE + cy
}

/// The cell coordinate of `v` for cells of side `delta`.
pub open spec fn cell_of(v: int, delta: int) -> int {
    v / delta
}

proof fn lemma_cell_key_injective(a: int, b: int, c: int, d: int)
    requires
        0 <= a < CELL_RANGE,
        0 <= b < CELL_RANGE,
        0 <= c < CELL_RANGE,
        0 <= d < CELL_RANGE,
        cell_key(a, b) == cell_key(c, d),
    ensures
        a == c,
        b == d,
{
    assert((a - c) * CELL_RANGE == d - b);
    if a > c {
        assert((a - c) * CELL_RANGE >= CELL_RANGE) by (nonlinear_arith)
            requires a - c >= 1;
    } else if a < c {
        assert((c - a) * CELL_RANGE >= CELL_RANGE) by (nonlinear_arith)
            requires c - a >= 1;
    }
}

/// A uniform grid of square cells of side `delta` over the quadrant of
/// non-negative coordinates; each cell lists the points inserted into it.
pub struct Grid {
    grid: HashMap<u64, Vec<Point>>,
    delta: u64,
}

impl Grid {
    /// Side of a cell.
    pub closed spec fn spec_delta(&self) -> int {
        self.delta as int
    }

    /// The points of the cell `(cx, cy)`, in order of insertion.
    pub closed spec fn cell(&self, cx: int, cy: int) -> Seq<Point> {
        if 0 <= cx < CELL_RANGE && 0 <= cy < CELL_RANGE && self.grid@.contains_key(
            cell_key(cx, cy) as u64,
        ) {
            self.grid@[cell_key(cx, cy) as u64]@
        } else {
            Seq::empty()
        }
    }

    /// The cell `(cx, cy)` has been created, by an insertion or on request.
    pub closed spec fn has_cell(&self, cx: int, cy: int) -> bool {
        0 <= cx < CELL_RANGE && 0 <= cy < CELL_RANGE && self.grid@.contains_key(cell_key(cx, cy) as u64)
    }

    /// The cell side is positive.
    pub closed spec fn wf(&self) -> bool {
        self.delta >= 1
    }

    /// A well-formed grid has cells of positive side.
    pub proof fn lemma_delta_positive(&self)
        requires
            self.wf(),
        ensures
            self.spec_delta() >= 1,
    {
    }

    /// The cell that holds the position `(x, y)`.
    pub fn get_coordinates(&self, x: i32, y: i32) -> (r: (usize, usize))
        requires
            self.wf(),
            x >= 0,
            y >= 0,
        ensures
            r.0 == cell_of(x as int, self.spec_delta()),
            r.1 == cell_of(y as int, self.spec_delta()),
            r.0 < 0x8000_0000,
            r.1 < 0x8000_0000,
    {
        let cx: u64 = (x as u64) / self.delta;
        let cy: u64 = (y as u64) / self.delta;
        assert(cx <= x as u64) by (nonlinear_arith)
            requires cx == (x as u64) / self.delta, self.delta >= 1, x >= 0;
        assert(cy <= y as u64) by (nonlinear_arith)
            requires cy == (y as u64) / self.delta, self.delta >= 1, y >= 0;
        (cx as usize, cy as usize)
    }

    /// An empty grid with cells of side `delta`.
    pub fn new(delta: u64) -> (r: Grid)
        requires
            delta >= 1,
        ensures
            r.wf(),
            r.spec_delta() == delta,
            forall|cx: int, cy: int| r.cell(cx, cy) == Seq::<Point>::empty(),
            forall|cx: int, cy: int| !r.has_cell(cx, cy),
    {
        Grid { grid: HashMap::new(), delta }
    }

    /// An empty grid with cells of side `delta`, with room for `capacity` cells.
    pub fn with_capacity(delta: u64, capacity: usize) -> (r: Grid)
        requires
            delta >= 1,
        ensures
            r.wf(),
            r.spec_delta() == delta,
            forall|cx: int, cy: int| r.cell(cx, cy) == Seq::<Point>::empty(),
            forall|cx: int, cy: int| !r.has_cell(cx, cy),
    {
        Grid { grid: HashMap::with_capacity(capacity), delta }
    }

    /// Appends `point` to the cell that holds it. Its coordinates must not be
    /// negative.
    pub fn insert(&mut self, point: &Point)
        requires
            old(self).wf(),
            point.x >= 0,
            point.y >= 0,
        ensures
            final(self).wf(),
            final(self).spec_delta() == old(self).spec_delta(),
            forall|cx: int, cy: int|
                #[trigger] final(self).cell(cx, cy) == if cx == cell_of(
                    point.x as int,
                    old(self).spec_delta(),
                ) && cy == cell_of(point.y as int, old(self).spec_delta()) {
                    old(self).cell(cx, cy).push(*point)
                } else {
                    old(self).cell(cx, cy)
                },
            forall|cx: int, cy: int|
                #[trigger] final(self).has_cell(cx, cy) == (old(self).has_cell(cx, cy) || (cx
                    == cell_of(point.x as int, old(self).spec_delta()) && cy == cell_of(
                    point.y as int,
                    old(self).spec_delta(),
                ))),
    {
        let (x, y) = self.get_coordinates(point.x, point.y);
        let cell = self.get_cell_or_create_new(x, y);
        cell.push(*point);
    }

    /// The list of the cell `(x, y)`, created empty where there was none, to
    /// read or extend in place.
    pub fn get_cell_or_create_new(&mut self, x: usize, y: usize) -> (r: &mut Vec<Point>)
        requires
            old(self).wf(),
            x < CELL_RANGE,
            y < CELL_RANGE,
        ensures
            r@ == old(self).cell(x as int, y as int),
            final(self).wf(),
            final(self).spec_delta() == old(self).spec_delta(),
            forall|cx: int, cy: int|
                #[trigger] final(self).cell(cx, cy) == if cx == x && cy == y {
                    final(r)@
                } else {
                    old(self).cell(cx, cy)
                },
            forall|cx: int, cy: int|
                #[trigger] final(self).has_cell(cx, cy) == (old(self).has_cell(cx, cy) || (cx == x
                    && cy == y)),
    {
        let key: u64 = (x as u64) * CELL_RANGE + (y as u64);
        proof {
            assert(key == cell_key(x as int, y as int));
            assert forall|cx: int, cy: int|
                0 <= cx < CELL_RANGE && 0 <= cy < CELL_RANGE && cell_key(cx, cy) == key as int implies cx
                == x && cy == y by {
                lemma_cell_key_injective(cx, cy, x as int, y as int);
            }
        }
        self.grid.entry(key).or_insert(Vec::new())
    }

    /// The points of the cell `(x, y)`, or `None` where none was ever inserted.
    pub fn get_cell(&self, x: usize, y: usize) -> (r: Option<&Vec<Point>>)
        requires
            self.wf(),
            x < CELL_RANGE,
            y < CELL_RANGE,
        ensures
            r.is_some() == self.has_cell(x as int, y as int),
            match r {
                Some(v) => v@ == self.cell(x as int, y as int),
                None => self.cell(x as int, y as int) == Seq::<Point>::empty(),
            },
    {
        let key: u64 = (x as u64) * CELL_RANGE + (y as u64);
        proof {
            assert(key == cell_key(x as int, y as int));
        }
        self.grid.get(&key)
    }
}

} // verus!
