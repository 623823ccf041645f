use vstd::prelude::*;

verus! {

/// An axis-aligned room: the cells `x <= cx < x + w`, `y <= cy < y + h`.
#[derive(PartialEq, Eq, Structural, Clone, Copy, Debug)]
pub struct Room {
    pub x: i32,
    pub y: i32,
    pub w: i32,
    pub h: i32,
}

impl Room {
    /// Both sides are at least one cell long and the far corner fits in `i32`.
    pub open spec fn wf(&self) -> bool {
        &&& self.w >= 1
        &&& self.h >= 1
        &&& self.x + self.w <= i32::MAX
        &&& self.y + self.h <= i32::MAX
    }

    /// Strict overlap of two rectangles along both axes.
    pub open spec fn overlaps(&self, other: &Room) -> bool {
        &&& self.x < other.x + other.w
        &&& self.x + self.w > other.x
        &&& self.y < other.y + other.h
        &&& self.y + self.h > other.y
    }

    /// The room covers cell `(cx, cy)`.
    pub open spec fn contains_cell(&self, cx: int, cy: int) -> bool {
        self.x <= cx < self.x + self.w && self.y <= cy < self.y + self.h
    }

    /// The room lies inside a `width` by `height` grid with a border of one cell.
    pub open spec fn within_margin(&self, width: int, height: int) -> bool {
        &&& self.x >= 1
        &&& self.y >= 1
        &&& self.x + self.w <= width - 1
        &&& self.y + self.h <= height - 1
    }

    /// The middle cell, rounded towards the origin.
    pub open spec fn center_spec(&self) -> (int, int) {
        (self.x + self.w / 2, self.y + self.h / 2)
    }

    /// Whether the two rooms share at least one cell.
    pub fn intersects(&self, other: &Room) -> (r: bool)
        requires
            self.wf(),
            other.wf(),
        ensures
            r == self.overlaps(other),
    {
        self.x < other.x + other.w && self.x + self.w > other.x && self.y < other.y + other.h
            && self.y + self.h > other.y
    }

    /// The middle cell of the room, rounded towards the origin.
    pub fn center(&self) -> (r: (i32, i32))
        requires
            self.wf(),
        ensures
            r.0 == self.center_spec().0,
            r.1 == self.center_spec().1,
            self.contains_cell(r.0 as int, r.1 as int),
    {
        (self.x + self.w / 2, self.y + self.h / 2)
    }
}

} // verus!
