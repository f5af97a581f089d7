use vstd::prelude::*;

verus! {

/// Three coordinates.
#[derive(Hash, Eq, PartialEq, Debug, Clone, Copy, Structural)]
pub struct Vec3<T> {
    pub x: T,
    pub y: T,
    pub z: T,
}

impl<T> Vec3<T> {
    pub fn new(p: (T, T, T)) -> (r: Self)
        ensures
            r.x == p.0,
            r.y == p.1,
            r.z == p.2,
    {
        Vec3 { x: p.0, y: p.1, z: p.2 }
    }
}

impl Vec3<i32> {
    /// The coordinates as mathematical integers.
    pub open spec fn coords(self) -> (int, int, int) {
        (self.x as int, self.y as int, self.z as int)
    }

    /// Component-wise sum.
    pub fn add(self, other: Self) -> (r: Self)
        requires
            i32::MIN <= self.x + other.x <= i32::MAX,
            i32::MIN <= self.y + other.y <= i32::MAX,
            i32::MIN <= self.z + other.z <= i32::MAX,
        ensures
            r.x == self.x + other.x,
            r.y == self.y + other.y,
            r.z == self.z + other.z,
    {
        Vec3 { x: self.x + other.x, y: self.y + other.y, z: self.z + other.z }
    }

    /// Component-wise difference.
    pub fn sub(self, other: Self) -> (r: Self)
        requires
            i32::MIN <= self.x - other.x <= i32::MAX,
            i32::MIN <= self.y - other.y <= i32::MAX,
            i32::MIN <= self.z - other.z <= i32::MAX,
        ensures
            r.x == self.x - other.x,
            r.y == self.y - other.y,
            r.z == self.z - other.z,
    {
        Vec3 { x: self.x - other.x, y: self.y - other.y, z: self.z - other.z }
    }
}

impl<T> From<(T, T, T)> for Vec3<T> {
    fn from(p: (T, T, T)) -> (r: Self) {
        Vec3 { x: p.0, y: p.1, z: p.2 }
    }
}

impl<T> vstd::std_specs::convert::FromSpecImpl<(T, T, T)> for Vec3<T> {
    open spec fn obeys_from_spec() -> bool {
        true
    }

    open spec fn from_spec(p: (T, T, T)) -> Self {
        Vec3 { x: p.0, y: p.1, z: p.2 }
    }
}

} // verus!
