use vstd::prelude::*;

verus! {

/// Largest magnitude of any coordinate held by the simulation.
pub const COORD_LIMIT: i64 = 1_099_511_627_776;

/// A point on the play field, in units, with the origin at the field's centre.
#[derive(Clone, Copy, Debug, PartialEq, Eq, Structural)]
pub struct Position {
    pub x: i64,
    pub y: i64,
}

impl Position {
    pub open spec fn in_bounds(self, limit: int) -> bool {
        -limit <= self.x <= limit && -limit <= self.y <= limit
    }
}

/// An axis-aligned rectangle with its edges in half units, so that boxes of
/// odd extent around an integer centre stay exact.
pub struct Rect {
    pub min_x: int,
    pub max_x: int,
    pub min_y: int,
    pub max_y: int,
}

/// Two rectangles collide when their interiors meet: edges that only touch
/// do not count.
pub open spec fn rects_overlap(a: Rect, b: Rect) -> bool {
    a.min_x < b.max_x && b.min_x < a.max_x && a.min_y < b.max_y && b.min_y < a.max_y
}

/// The box of width `w` and height `h` centred on `p`.
pub open spec fn rect_around(p: Position, w: int, h: int) -> Rect {
    Rect { min_x: 2 * p.x - w, max_x: 2 * p.x + w, min_y: 2 * p.y - h, max_y: 2 * p.y + h }
}

/// The executable form of `Rect`, in the same half units.
#[derive(Clone, Copy, Debug, PartialEq, Eq)]
pub struct Aabb {
    pub min_x: i64,
    pub max_x: i64,
    pub min_y: i64,
    pub max_y: i64,
}

impl View for Aabb {
    type V = Rect;

    open spec fn view(&self) -> Rect {
        Rect { min_x: self.min_x as int, max_x: self.max_x as int, min_y: self.min_y as int, max_y: self.max_y as int }
    }
}

impl Aabb {
    /// The box of width `w` and height `h` centred on `p`.
    pub fn around(p: Position, w: i64, h: i64) -> (r: Aabb)
        requires
            p.in_bounds(2 * COORD_LIMIT),
            0 <= w <= 2 * COORD_LIMIT,
            0 <= h <= 2 * COORD_LIMIT,
        ensures
            r@ == rect_around(p, w as int, h as int),
    {
        Aabb { min_x: 2 * p.x - w, max_x: 2 * p.x + w, min_y: 2 * p.y - h, max_y: 2 * p.y + h }
    }

    /// Whether the interiors of the two boxes meet.
    pub fn collide(&self, other: &Aabb) -> (r: bool)
        ensures
            r == rects_overlap(self@, other@),
    {
        self.min_x < other.max_x && other.min_x < self.max_x && self.min_y < other.max_y
            && other.min_y < self.max_y
    }
}

} // verus!
