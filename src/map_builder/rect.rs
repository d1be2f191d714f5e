use vstd::prelude::*;

verus! {

/// An axis-aligned rectangle given by its corners `(x1, y1)` and `(x2, y2)`.
#[derive(Debug, Clone, Copy, PartialEq, Eq, Structural)]
pub struct Rect {
    pub x1: u32,
    pub x2: u32,
    pub y1: u32,
    pub y2: u32,
}

/// Whether two rectangles overlap or touch (edges count).
pub open spec fn rects_intersect(a: Rect, b: Rect) -> bool {
    a.x1 <= b.x2 && a.x2 >= b.x1 && a.y1 <= b.y2 && a.y2 >= b.y1
}

impl Rect {
    /// The corners are ordered: `x1 <= x2` and `y1 <= y2`.
    pub open spec fn wf(&self) -> bool {
        self.x1 <= self.x2 && self.y1 <= self.y2
    }

    /// The rectangle with corner `(x, y)` and the given width and height.
    pub fn new(x: u32, y: u32, width: u32, height: u32) -> (r: Rect)
        requires
            x + width <= u32::MAX,
            y + height <= u32::MAX,
        ensures
            r == (Rect { x1: x, y1: y, x2: (x + width) as u32, y2: (y + height) as u32 }),
            r.wf(),
    {
        Rect { x1: x, y1: y, x2: x + width, y2: y + height }
    }

    /// Whether this rectangle overlaps or touches `other`.
    pub fn intersect(&self, other: &Rect) -> (r: bool)
        ensures
            r == rects_intersect(*self, *other),
    {
        self.x1 <= other.x2 && self.x2 >= other.x1 && self.y1 <= other.y2 && self.y2 >= other.y1
    }

    /// The center, rounded down towards `(x1, y1)`.
    pub fn center(&self) -> (r: (u32, u32))
        ensures
            r.0 == (self.x1 + self.x2) / 2,
            r.1 == (self.y1 + self.y2) / 2,
    {
        let cx = ((self.x1 as u64 + self.x2 as u64) / 2) as u32;
        let cy = ((self.y1 as u64 + self.y2 as u64) / 2) as u32;
        (cx, cy)
    }

    /// The distance between the left and right edges.
    pub fn width(&self) -> (r: u32)
        requires
            self.wf(),
        ensures
            r == self.x2 - self.x1,
    {
        self.x2 - self.x1
    }

    /// The distance between the top and bottom edges.
    pub fn height(&self) -> (r: u32)
        requires
            self.wf(),
        ensures
            r == self.y2 - self.y1,
    {
        self.y2 - self.y1
    }
}

} // verus!
