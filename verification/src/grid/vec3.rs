use vstd::prelude::*;

verus! {

/// Three coordinates.
#[derive(Hash, Eq, PartialEq, Debug, Clone, Copy, Structural)]
pub struct Vec3<T> {
    pub x: T,
    pub y: T,
    pub z: T,
}

impl<T> Vec3<T> {
    pub fn new(x: T, y: T, z: T) -> (r: Vec3<T>)
        ensures
            r.x == x,
            r.y == y,
            r.z == z,
    {
        Vec3 { x: x, y: y, z: z }
    }
}

/// A value that can be seen as three coordinates.
pub trait ToVec3<T> {
    spec fn as_vec3(&self) -> Vec3<T>;

    fn to_vec3(&self) -> (r: Vec3<T>)
        ensures
            r == self.as_vec3(),
    ;
}

impl<T: Copy> ToVec3<T> for Vec3<T> {
    open spec fn as_vec3(&self) -> Vec3<T> {
        *self
    }

    fn to_vec3(&self) -> (r: Vec3<T>) {
        Vec3 { x: self.x, y: self.y, z: self.z }
    }
}

} // verus!
