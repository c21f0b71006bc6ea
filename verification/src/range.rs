use vstd::prelude::*;
use crate::rect::Rect;
use crate::vec2::{in_i32, manhattan, Vec2i};

verus! {

/// Something a path search can head for: it tells whether a cell already reaches it and how far
/// a cell is from it.
pub trait FindPathTarget {
    /// Whether `get_distance(position)` can be computed without overflow.
    spec fn target_defined(&self, position: Vec2i) -> bool;

    spec fn target_reached(&self, position: Vec2i) -> bool;

    spec fn target_distance(&self, position: Vec2i) -> int;

    fn has_reached(&self, position: Vec2i) -> (r: bool)
        requires
            self.target_defined(position),
        ensures
            r == self.target_reached(position),
    ;

    fn get_distance(&self, position: Vec2i) -> (r: i32)
        requires
            self.target_defined(position),
        ensures
            r == self.target_distance(position),
    ;
}

/// All cells within Manhattan distance `radius` of `center`.
#[derive(Clone, Copy, Debug, PartialEq, Eq, Hash, Default, PartialOrd)]
pub struct Range {
    pub center: Vec2i,
    pub radius: i32,
}

impl Range {
    pub fn new(center: Vec2i, radius: i32) -> (r: Self)
        ensures
            r.center == center,
            r.radius == radius,
    {
        Self { center, radius }
    }

    pub fn center(&self) -> (r: Vec2i)
        ensures
            r == self.center,
    {
        self.center
    }

    pub fn radius(&self) -> (r: i32)
        ensures
            r == self.radius,
    {
        self.radius
    }

    pub fn distance(&self, position: Vec2i) -> (r: i32)
        requires
            manhattan(self.center, position) <= i32::MAX,
        ensures
            r == manhattan(self.center, position),
    {
        self.center.distance(position)
    }

    pub fn contains(&self, position: Vec2i) -> (r: bool)
        requires
            manhattan(self.center, position) <= i32::MAX,
        ensures
            r == (manhattan(self.center, position) <= self.radius),
    {
        self.distance(position) <= self.radius
    }
}

impl FindPathTarget for Range {
    open spec fn target_defined(&self, position: Vec2i) -> bool {
        manhattan(self.center, position) <= i32::MAX
    }

    open spec fn target_reached(&self, position: Vec2i) -> bool {
        manhattan(self.center, position) <= self.radius
    }

    open spec fn target_distance(&self, position: Vec2i) -> int {
        manhattan(self.center, position)
    }

    fn has_reached(&self, position: Vec2i) -> (r: bool) {
        self.contains(position)
    }

    fn get_distance(&self, position: Vec2i) -> (r: i32) {
        self.distance(position)
    }
}

/// All cells within distance `radius` of the square of side `size` whose corner is `position`,
/// measured as `Rect::distance_to_position` measures it.
#[derive(Clone, Copy, Debug, PartialEq, Eq, Hash, Default, PartialOrd)]
pub struct SizedRange {
    pub position: Vec2i,
    pub size: i32,
    pub radius: i32,
}

impl SizedRange {
    /// The square this range surrounds.
    pub open spec fn spec_bounds(self) -> Rect {
        Rect {
            min: self.position,
            max: Vec2i { x: (self.position.x + self.size) as i32, y: (self.position.y + self.size) as i32 },
        }
    }

    pub open spec fn distance_defined(self, position: Vec2i) -> bool {
        &&& in_i32(self.position.x + self.size)
        &&& in_i32(self.position.y + self.size)
        &&& self.spec_bounds().distance_to_position_fits(position)
    }

    pub fn new(position: Vec2i, size: i32, radius: i32) -> (r: Self)
        ensures
            r.position == position,
            r.size == size,
            r.radius == radius,
    {
        Self { position, size, radius }
    }

    pub fn position(&self) -> (r: Vec2i)
        ensures
            r == self.position,
    {
        self.position
    }

    pub fn size(&self) -> (r: i32)
        ensures
            r == self.size,
    {
        self.size
    }

    pub fn radius(&self) -> (r: i32)
        ensures
            r == self.radius,
    {
        self.radius
    }

    pub fn distance(&self, position: Vec2i) -> (r: i32)
        requires
            self.distance_defined(position),
        ensures
            r == self.spec_bounds().spec_distance_to_position(position),
    {
        Rect::new(self.position, self.position + Vec2i::both(self.size)).distance_to_position(position)
    }

    pub fn contains(&self, position: Vec2i) -> (r: bool)
        requires
            self.distance_defined(position),
        ensures
            r == (self.spec_bounds().spec_distance_to_position(position) <= self.radius),
    {
        self.distance(position) <= self.radius
    }
}

impl FindPathTarget for SizedRange {
    open spec fn target_defined(&self, position: Vec2i) -> bool {
        self.distance_defined(position)
    }

    open spec fn target_reached(&self, position: Vec2i) -> bool {
        self.spec_bounds().spec_distance_to_position(position) <= self.radius
    }

    open spec fn target_distance(&self, position: Vec2i) -> int {
        self.spec_bounds().spec_distance_to_position(position)
    }

    fn has_reached(&self, position: Vec2i) -> (r: bool) {
        self.contains(position)
    }

    fn get_distance(&self, position: Vec2i) -> (r: i32) {
        self.distance(position)
    }
}

} // verus!
