use vstd::prelude::*;
use crate::vec2::{in_i32, trunc_div, Vec2i};

verus! {

/// How far `v` lies outside the half-open interval `[lo, hi)` along one axis, counted so that
/// the cells just before `lo` and just at `hi` are at distance 1.
pub open spec fn axis_gap(lo: int, hi: int, v: int) -> int {
    if v < lo {
        lo - v
    } else if v >= hi {
        v + 1 - hi
    } else {
        0
    }
}

/// The per-axis separation of two intervals `[a_lo, a_hi)` and `[b_lo, b_hi)` as
/// `Rect::distance` measures it, case by case in the order the cases are tried.
pub open spec fn axis_separation(a_lo: int, a_hi: int, b_lo: int, b_hi: int) -> int {
    if a_lo > b_hi {
        a_lo - b_hi
    } else if a_hi <= b_lo {
        b_lo + 1 - a_hi
    } else if b_lo > a_hi {
        b_lo - a_hi
    } else if b_hi <= a_lo {
        a_lo + 1 - b_hi
    } else {
        0
    }
}

/// An axis-aligned rectangle of grid cells `min.x <= x < max.x`, `min.y <= y < max.y`.
#[derive(Clone, Copy, Debug, PartialEq, Eq, Hash, Default, PartialOrd)]
pub struct Rect {
    pub min: Vec2i,
    pub max: Vec2i,
}

impl Rect {
    pub open spec fn spec_contains(self, p: Vec2i) -> bool {
        self.min.x <= p.x < self.max.x && self.min.y <= p.y < self.max.y
    }

    pub open spec fn spec_distance_to_position(self, p: Vec2i) -> int {
        axis_gap(self.min.x as int, self.max.x as int, p.x as int) + axis_gap(
            self.min.y as int,
            self.max.y as int,
            p.y as int,
        )
    }

    pub open spec fn spec_distance(self, other: Rect) -> int {
        axis_separation(
            self.min.x as int,
            self.max.x as int,
            other.min.x as int,
            other.max.x as int,
        ) + axis_separation(
            self.min.y as int,
            self.max.y as int,
            other.min.y as int,
            other.max.y as int,
        )
    }

    pub open spec fn spec_overlaps(self, other: Rect) -> bool {
        self.min.x < other.max.x && self.max.x > other.min.x && self.min.y < other.max.y
            && self.max.y > other.min.y
    }

    /// Whether `distance_to_position(p)` can be computed without overflow.
    pub open spec fn distance_to_position_fits(self, p: Vec2i) -> bool {
        &&& in_i32(axis_gap(self.min.x as int, self.max.x as int, p.x as int))
        &&& in_i32(axis_gap(self.min.y as int, self.max.y as int, p.y as int))
        &&& in_i32(self.spec_distance_to_position(p))
    }

    /// Whether `distance(other)` can be computed without overflow.
    pub open spec fn distance_fits(self, other: Rect) -> bool {
        &&& in_i32(
            axis_separation(
                self.min.x as int,
                self.max.x as int,
                other.min.x as int,
                other.max.x as int,
            ),
        )
        &&& in_i32(
            axis_separation(
                self.min.y as int,
                self.max.y as int,
                other.min.y as int,
                other.max.y as int,
            ),
        )
        &&& in_i32(self.spec_distance(other))
    }

    pub fn new(min: Vec2i, max: Vec2i) -> (r: Self)
        ensures
            r.min == min,
            r.max == max,
    {
        Rect { min, max }
    }

    pub fn min(&self) -> (r: Vec2i)
        ensures
            r == self.min,
    {
        self.min
    }

    pub fn max(&self) -> (r: Vec2i)
        ensures
            r == self.max,
    {
        self.max
    }

    /// Number of cells, the product of the two side lengths.
    pub fn square(&self) -> (r: i32)
        requires
            in_i32(self.max.x - self.min.x),
            in_i32(self.max.y - self.min.y),
            in_i32((self.max.x - self.min.x) * (self.max.y - self.min.y)),
        ensures
            r == (self.max.x - self.min.x) * (self.max.y - self.min.y),
    {
        (self.max - self.min).product()
    }

    /// Midpoint of the two corners, each coordinate rounded toward zero.
    pub fn center(&self) -> (r: Vec2i)
        requires
            in_i32(self.min.x + self.max.x),
            in_i32(self.min.y + self.max.y),
        ensures
            r.x == trunc_div(self.min.x + self.max.x, 2),
            r.y == trunc_div(self.min.y + self.max.y, 2),
    {
        (self.min + self.max) / 2
    }

    pub fn contains(&self, position: Vec2i) -> (r: bool)
        ensures
            r == self.spec_contains(position),
    {
        self.min.x <= position.x && position.x < self.max.x && self.min.y <= position.y
            && position.y < self.max.y
    }

    /// Manhattan distance from the nearest cell of the rectangle to `position`, counting a cell
    /// just outside a side as distance 1 and a cell inside as 0.
    pub fn distance_to_position(&self, position: Vec2i) -> (r: i32)
        requires
            self.distance_to_position_fits(position),
        ensures
            r == self.spec_distance_to_position(position),
    {
        let x = if position.x < self.min.x {
            self.min.x - position.x
        } else if position.x >= self.max.x {
            (position.x - self.max.x) + 1
        } else {
            0
        };
        let y = if position.y < self.min.y {
            self.min.y - position.y
        } else if position.y >= self.max.y {
            (position.y - self.max.y) + 1
        } else {
            0
        };
        x + y
    }

    /// Separation of two rectangles, summed over the two axes; 0 exactly when they overlap.
    pub fn distance(&self, rect: &Rect) -> (r: i32)
        requires
            self.distance_fits(*rect),
        ensures
            r == self.spec_distance(*rect),
    {
        let x = if self.min.x > rect.max.x {
            self.min.x - rect.max.x
        } else if self.max.x <= rect.min.x {
            (rect.min.x - self.max.x) + 1
        } else if rect.min.x > self.max.x {
            rect.min.x - self.max.x
        } else if rect.max.x <= self.min.x {
            (self.min.x - rect.max.x) + 1
        } else {
            0
        };
        let y = if self.min.y > rect.max.y {
            self.min.y - rect.max.y
        } else if self.max.y <= rect.min.y {
            (rect.min.y - self.max.y) + 1
        } else if rect.min.y > self.max.y {
            rect.min.y - self.max.y
        } else if rect.max.y <= self.min.y {
            (self.min.y - rect.max.y) + 1
        } else {
            0
        };
        x + y
    }

    pub fn overlaps(&self, other: &Rect) -> (r: bool)
        ensures
            r == self.spec_overlaps(*other),
    {
        self.min.x < other.max.x && self.max.x > other.min.x && self.min.y < other.max.y
            && self.max.y > other.min.y
    }
}

/// A cell is inside a rectangle exactly when its distance to the rectangle is zero; the
/// distance is never negative.
pub proof fn lemma_contains_iff_zero_distance(rect: Rect, p: Vec2i)
    ensures
        rect.spec_distance_to_position(p) >= 0,
        rect.spec_contains(p) <==> rect.spec_distance_to_position(p) == 0,
{
}

/// Two rectangles overlap exactly when their distance is zero; the distance is never negative.
pub proof fn lemma_overlaps_iff_zero_distance(a: Rect, b: Rect)
    ensures
        a.spec_distance(b) >= 0,
        a.spec_overlaps(b) <==> a.spec_distance(b) == 0,
{
}

/// Overlapping is symmetric.
pub proof fn lemma_overlaps_symmetric(a: Rect, b: Rect)
    ensures
        a.spec_overlaps(b) <==> b.spec_overlaps(a),
{
}

} // verus!
