use vstd::prelude::*;

use crate::vec2::Vec2;

verus! {

/// A point of the playfield.
#[derive(Hash, Eq, PartialEq, Clone, Copy, Debug, Structural)]
pub struct Position {
    pub x: i32,
    pub y: i32,
}

impl Position {
    pub open spec fn pt(self) -> (int, int) {
        (self.x as int, self.y as int)
    }

    pub fn new(x: i32, y: i32) -> (p: Position)
        ensures
            p.x == x,
            p.y == y,
    {
        Position { x: x, y: y }
    }

    pub fn get_x(&self) -> (r: i32)
        ensures
            r == self.x,
    {
        self.x
    }

    pub fn get_y(&self) -> (r: i32)
        ensures
            r == self.y,
    {
        self.y
    }

    pub fn set_x(&mut self, x: i32)
        ensures
            final(self).x == x,
            final(self).y == old(self).y,
    {
        self.x = x;
    }

    pub fn set_y(&mut self, y: i32)
        ensures
            final(self).x == old(self).x,
            final(self).y == y,
    {
        self.y = y;
    }

    /// Moves the point by the given offsets.
    pub fn add(&mut self, offs_x: i32, offs_y: i32)
        requires
            i32::MIN <= old(self).x + offs_x <= i32::MAX,
            i32::MIN <= old(self).y + offs_y <= i32::MAX,
        ensures
            final(self).x == old(self).x + offs_x,
            final(self).y == old(self).y + offs_y,
    {
        self.x += offs_x;
        self.y += offs_y;
    }

    pub fn to_vec2(&self) -> (v: Vec2<i32>)
        ensures
            v.x == self.x,
            v.y == self.y,
    {
        Vec2 { x: self.x, y: self.y }
    }
}

} // verus!
