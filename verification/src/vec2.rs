use vstd::prelude::*;

verus! {

/// Whether an integer fits in an `i32`.
pub open spec fn in_i32(v: int) -> bool {
    i32::MIN <= v <= i32::MAX
}

/// Absolute value of an integer.
pub open spec fn abs_int(v: int) -> int {
    if v < 0 {
        -v
    } else {
        v
    }
}

/// Integer division that rounds toward zero, as Rust's `/` on signed integers does.
pub open spec fn trunc_div(a: int, b: int) -> int {
    if a >= 0 {
        a / b
    } else {
        -((-a) / b)
    }
}

/// Manhattan distance between two grid points.
pub open spec fn manhattan(a: Vec2i, b: Vec2i) -> int {
    abs_int(b.x - a.x) + abs_int(b.y - a.y)
}

/// A point or a shift on the integer grid of the game map.
#[derive(Clone, Copy, Debug, PartialEq, Eq, Structural, Hash, Default, PartialOrd, Ord)]
pub struct Vec2i {
    pub x: i32,
    pub y: i32,
}

impl Vec2i {
    pub fn new(x: i32, y: i32) -> (r: Self)
        ensures
            r.x == x,
            r.y == y,
    {
        Self { x, y }
    }

    pub fn zero() -> (r: Self)
        ensures
            r.x == 0,
            r.y == 0,
    {
        Self { x: 0, y: 0 }
    }

    pub fn x(&self) -> (r: i32)
        ensures
            r == self.x,
    {
        self.x
    }

    pub fn y(&self) -> (r: i32)
        ensures
            r == self.y,
    {
        self.y
    }

    pub fn only_x(x: i32) -> (r: Self)
        ensures
            r.x == x,
            r.y == 0,
    {
        Self { x, y: 0 }
    }

    pub fn only_y(y: i32) -> (r: Self)
        ensures
            r.x == 0,
            r.y == y,
    {
        Self { x: 0, y }
    }

    pub fn with_x(&self, x: i32) -> (r: Self)
        ensures
            r.x == x,
            r.y == self.y,
    {
        Self::new(x, self.y)
    }

    pub fn with_y(&self, y: i32) -> (r: Self)
        ensures
            r.x == self.x,
            r.y == y,
    {
        Self::new(self.x, y)
    }

    pub fn both(value: i32) -> (r: Self)
        ensures
            r.x == value,
            r.y == value,
    {
        Self { x: value, y: value }
    }

    /// Componentwise minimum.
    pub fn lowest(&self, other: Self) -> (r: Self)
        ensures
            r.x == if self.x <= other.x { self.x } else { other.x },
            r.y == if self.y <= other.y { self.y } else { other.y },
    {
        Self {
            x: if self.x <= other.x { self.x } else { other.x },
            y: if self.y <= other.y { self.y } else { other.y },
        }
    }

    /// Componentwise maximum.
    pub fn highest(&self, other: Self) -> (r: Self)
        ensures
            r.x == if self.x >= other.x { self.x } else { other.x },
            r.y == if self.y >= other.y { self.y } else { other.y },
    {
        Self {
            x: if self.x >= other.x { self.x } else { other.x },
            y: if self.y >= other.y { self.y } else { other.y },
        }
    }

    pub fn abs(&self) -> (r: Self)
        requires
            self.x != i32::MIN,
            self.y != i32::MIN,
        ensures
            r.x == abs_int(self.x as int),
            r.y == abs_int(self.y as int),
    {
        Self {
            x: if self.x < 0 { -self.x } else { self.x },
            y: if self.y < 0 { -self.y } else { self.y },
        }
    }

    pub fn sum(&self) -> (r: i32)
        requires
            in_i32(self.x + self.y),
        ensures
            r == self.x + self.y,
    {
        self.x + self.y
    }

    /// Product of the two components, the area of a rectangle with this size.
    pub fn product(&self) -> (r: i32)
        requires
            in_i32(self.x * self.y),
        ensures
            r == self.x * self.y,
    {
        self.x * self.y
    }

    /// Manhattan distance to `other`.
    pub fn distance(&self, other: Self) -> (r: i32)
        requires
            manhattan(*self, other) <= i32::MAX,
        ensures
            r == manhattan(*self, other),
    {
        let d = other - *self;
        d.abs().sum()
    }
}

impl core::ops::Add for Vec2i {
    type Output = Self;

    fn add(self, rhs: Self) -> (r: Self) {
        Vec2i { x: self.x + rhs.x, y: self.y + rhs.y }
    }
}

impl vstd::std_specs::ops::AddSpecImpl for Vec2i {
    open spec fn obeys_add_spec() -> bool {
        true
    }

    open spec fn add_req(self, rhs: Self) -> bool {
        in_i32(self.x + rhs.x) && in_i32(self.y + rhs.y)
    }

    open spec fn add_spec(self, rhs: Self) -> Self {
        Vec2i { x: (self.x + rhs.x) as i32, y: (self.y + rhs.y) as i32 }
    }
}

impl core::ops::Sub for Vec2i {
    type Output = Self;

    fn sub(self, rhs: Self) -> (r: Self) {
        Vec2i { x: self.x - rhs.x, y: self.y - rhs.y }
    }
}

impl vstd::std_specs::ops::SubSpecImpl for Vec2i {
    open spec fn obeys_sub_spec() -> bool {
        true
    }

    open spec fn sub_req(self, rhs: Self) -> bool {
        in_i32(self.x - rhs.x) && in_i32(self.y - rhs.y)
    }

    open spec fn sub_spec(self, rhs: Self) -> Self {
        Vec2i { x: (self.x - rhs.x) as i32, y: (self.y - rhs.y) as i32 }
    }
}

impl core::ops::Mul for Vec2i {
    type Output = Self;

    fn mul(self, rhs: Self) -> (r: Self) {
        Vec2i { x: self.x * rhs.x, y: self.y * rhs.y }
    }
}

impl vstd::std_specs::ops::MulSpecImpl for Vec2i {
    open spec fn obeys_mul_spec() -> bool {
        true
    }

    open spec fn mul_req(self, rhs: Self) -> bool {
        in_i32(self.x * rhs.x) && in_i32(self.y * rhs.y)
    }

    open spec fn mul_spec(self, rhs: Self) -> Self {
        Vec2i { x: (self.x * rhs.x) as i32, y: (self.y * rhs.y) as i32 }
    }
}

impl core::ops::Mul<i32> for Vec2i {
    type Output = Self;

    fn mul(self, rhs: i32) -> (r: Self) {
        Vec2i { x: self.x * rhs, y: self.y * rhs }
    }
}

impl vstd::std_specs::ops::MulSpecImpl<i32> for Vec2i {
    open spec fn obeys_mul_spec() -> bool {
        true
    }

    open spec fn mul_req(self, rhs: i32) -> bool {
        in_i32(self.x * rhs) && in_i32(self.y * rhs)
    }

    open spec fn mul_spec(self, rhs: i32) -> Self {
        Vec2i { x: (self.x * rhs) as i32, y: (self.y * rhs) as i32 }
    }
}

impl core::ops::Div<i32> for Vec2i {
    type Output = Self;

    fn div(self, rhs: i32) -> (r: Self) {
        Vec2i { x: self.x / rhs, y: self.y / rhs }
    }
}

impl vstd::std_specs::ops::DivSpecImpl<i32> for Vec2i {
    open spec fn obeys_div_spec() -> bool {
        true
    }

    open spec fn div_req(self, rhs: i32) -> bool {
        rhs != 0 && !(rhs == -1 && (self.x == i32::MIN || self.y == i32::MIN))
    }

    open spec fn div_spec(self, rhs: i32) -> Self {
        Vec2i { x: trunc_div(self.x as int, rhs as int) as i32, y: trunc_div(self.y as int, rhs as int) as i32 }
    }
}

} // verus!
