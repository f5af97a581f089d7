use vstd::prelude::*;

verus! {

/// A pair of coordinates.
#[derive(Hash, Eq, PartialEq, Debug, Clone, Copy, Structural)]
pub struct Vec2<T> {
    pub x: T,
    pub y: T,
}

impl<T> Vec2<T> {
    pub fn new(p: (T, T)) -> (r: Self)
        ensures
            r.x == p.0,
            r.y == p.1,
    {
        Vec2 { x: p.0, y: p.1 }
    }
}

impl Vec2<i32> {
    /// The point as a pair of mathematical integers.
    pub open spec fn pt(self) -> (int, int) {
        (self.x as int, self.y as int)
    }

    /// Component-wise sum.
    pub fn add(self, other: Self) -> (r: Self)
        requires
            i32::MIN <= self.x + other.x <= i32::MAX,
            i32::MIN <= self.y + other.y <= i32::MAX,
        ensures
            r.x == self.x + other.x,
            r.y == self.y + other.y,
    {
        Vec2 { x: self.x + other.x, y: self.y + other.y }
    }

    /// Component-wise difference.
    pub fn sub(self, other: Self) -> (r: Self)
        requires
            i32::MIN <= self.x - other.x <= i32::MAX,
            i32::MIN <= self.y - other.y <= i32::MAX,
        ensures
            r.x == self.x - other.x,
            r.y == self.y - other.y,
    {
        Vec2 { x: self.x - other.x, y: self.y - other.y }
    }
}

impl<T> From<(T, T)> for Vec2<T> {
    fn from(p: (T, T)) -> (r: Self) {
        Vec2 { x: p.0, y: p.1 }
    }
}

impl<T> vstd::std_specs::convert::FromSpecImpl<(T, T)> for Vec2<T> {
    open spec fn obeys_from_spec() -> bool {
        true
    }

    open spec fn from_spec(p: (T, T)) -> Self {
        Vec2 { x: p.0, y: p.1 }
    }
}

} // verus!
