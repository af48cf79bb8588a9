use vstd::prelude::*;

verus! {

/// A rectangle of grid pixels: columns `x..x + width`, rows `y..y + height`.
#[derive(Clone, Copy, Debug, PartialEq, Eq, Structural)]
pub struct SelectionRegion {
    pub x: usize,
    pub y: usize,
    pub width: usize,
    pub height: usize,
}

/// A strip of pixels that joined the selection (`was_added`) or left it.
#[derive(Clone, Copy, Debug, PartialEq, Eq, Structural)]
pub struct ChangedRegion {
    pub was_added: bool,
    pub region: SelectionRegion,
}

pub open spec fn min_spec(a: int, b: int) -> int {
    if a <= b { a } else { b }
}

pub open spec fn max_spec(a: int, b: int) -> int {
    if a <= b { b } else { a }
}

/// The region spanning `lo..hi` in columns and `top..bottom` in rows (empty spans are
/// allowed).
pub open spec fn span(lo: int, hi: int, top: int, bottom: int) -> SelectionRegion {
    SelectionRegion { x: lo as usize, y: top as usize, width: (hi - lo) as usize, height: (bottom - top) as usize }
}

impl SelectionRegion {
    /// The region's far edges fit in `usize`.
    pub open spec fn valid(self) -> bool {
        self.x + self.width <= usize::MAX && self.y + self.height <= usize::MAX
    }

    pub open spec fn right(self) -> int {
        self.x + self.width
    }

    pub open spec fn bottom(self) -> int {
        self.y + self.height
    }

    /// The two regions share at least one pixel.
    pub open spec fn overlaps(self, o: SelectionRegion) -> bool {
        self.x < o.right() && o.x < self.right() && self.y < o.bottom() && o.y < self.bottom()
    }

    /// The pixels that the two regions share (empty when they share none).
    pub open spec fn spec_intersection(self, o: SelectionRegion) -> SelectionRegion {
        if self.overlaps(o) {
            span(max_spec(self.x as int, o.x as int), min_spec(self.right(), o.right()),
                max_spec(self.y as int, o.y as int), min_spec(self.bottom(), o.bottom()))
        } else {
            SelectionRegion { x: 0, y: 0, width: 0, height: 0 }
        }
    }

    /// The columns that one region has and the other lacks, next to the edge that moved:
    /// the right one when the left edges agree, else the left one; over the rows of the
    /// wider region, and added when `new` is the wider.
    pub open spec fn column_change(self, new: SelectionRegion) -> ChangedRegion {
        let wider = if new.width > self.width { new } else { self };
        let (lo, hi) = if self.x == new.x {
            (min_spec(self.right(), new.right()), max_spec(self.right(), new.right()))
        } else {
            (min_spec(self.x as int, new.x as int), max_spec(self.x as int, new.x as int))
        };
        ChangedRegion { was_added: new.width > self.width, region: span(lo, hi, wider.y as int, wider.bottom()) }
    }

    /// The rows that one region has and the other lacks, next to the edge that moved: the
    /// bottom one when the top edges agree, else the top one; over the columns that both
    /// regions share, and added when `new` is the taller.
    pub open spec fn row_change(self, new: SelectionRegion) -> ChangedRegion {
        let (top, bottom) = if self.y == new.y {
            (min_spec(self.bottom(), new.bottom()), max_spec(self.bottom(), new.bottom()))
        } else {
            (min_spec(self.y as int, new.y as int), max_spec(self.y as int, new.y as int))
        };
        ChangedRegion {
            was_added: new.height > self.height,
            region: span(max_spec(self.x as int, new.x as int), min_spec(self.right(), new.right()), top, bottom),
        }
    }

    /// The region with corners `(x1, y1)` and `(x2, y2)`, in either order.
    pub fn from_points(x1: usize, y1: usize, x2: usize, y2: usize) -> (r: SelectionRegion)
        ensures
            r.x == min_spec(x1 as int, x2 as int),
            r.y == min_spec(y1 as int, y2 as int),
            r.right() == max_spec(x1 as int, x2 as int),
            r.bottom() == max_spec(y1 as int, y2 as int),
            r.valid(),
    {
        let (x, width) = if x1 <= x2 { (x1, x2 - x1) } else { (x2, x1 - x2) };
        let (y, height) = if y1 <= y2 { (y1, y2 - y1) } else { (y2, y1 - y2) };
        SelectionRegion { x, y, width, height }
    }

    /// How the selection changes when it goes from `self` to `new` while the pointer that
    /// started it stays at `(origin_x, origin_y)`: the pixels kept, then the strip of
    /// columns and the strip of rows that changed. When the two regions share no pixel,
    /// the whole of `new` is added and the whole of `self` removed.
    pub fn diff(&self, _origin_x: usize, _origin_y: usize, new: &SelectionRegion) -> (r: (SelectionRegion, ChangedRegion, ChangedRegion))
        requires
            self.valid(),
            new.valid(),
        ensures
            r.0 == self.spec_intersection(*new),
            !self.overlaps(*new) ==> r.1 == (ChangedRegion { was_added: true, region: *new })
                && r.2 == (ChangedRegion { was_added: false, region: *self }),
            self.overlaps(*new) ==> r.1 == self.column_change(*new) && r.2 == self.row_change(*new),
    {
        let (sr, sb) = (self.x + self.width, self.y + self.height);
        let (nr, nb) = (new.x + new.width, new.y + new.height);
        if !(self.x < nr && new.x < sr && self.y < nb && new.y < sb) {
            return (
                SelectionRegion { x: 0, y: 0, width: 0, height: 0 },
                ChangedRegion { was_added: true, region: *new },
                ChangedRegion { was_added: false, region: *self },
            );
        }
        let ix = if self.x >= new.x { self.x } else { new.x };
        let iy = if self.y >= new.y { self.y } else { new.y };
        let ir = if sr <= nr { sr } else { nr };
        let ib = if sb <= nb { sb } else { nb };
        let kept = SelectionRegion { x: ix, y: iy, width: ir - ix, height: ib - iy };

        let wider = if new.width > self.width { *new } else { *self };
        let (lo, hi) = if self.x == new.x {
            (if sr <= nr { sr } else { nr }, if sr <= nr { nr } else { sr })
        } else {
            (if self.x <= new.x { self.x } else { new.x }, if self.x <= new.x { new.x } else { self.x })
        };
        let columns = ChangedRegion {
            was_added: new.width > self.width,
            region: SelectionRegion { x: lo, y: wider.y, width: hi - lo, height: wider.height },
        };

        let (top, bottom) = if self.y == new.y {
            (if sb <= nb { sb } else { nb }, if sb <= nb { nb } else { sb })
        } else {
            (if self.y <= new.y { self.y } else { new.y }, if self.y <= new.y { new.y } else { self.y })
        };
        let rows = ChangedRegion {
            was_added: new.height > self.height,
            region: SelectionRegion { x: ix, y: top, width: ir - ix, height: bottom - top },
        };
        (kept, columns, rows)
    }
}

} // verus!
