use vstd::prelude::*;

use crate::grid::pos_dir::norm_dir;

verus! {

/// A figure's place: direction, column and row.
#[derive(Clone, Copy, Debug)]
pub struct Position {
    dir: i32,
    x_pos: i32,
    y_pos: i32,
}

impl Position {
    pub closed spec fn x(&self) -> int {
        self.x_pos as int
    }

    pub closed spec fn y(&self) -> int {
        self.y_pos as int
    }

    pub closed spec fn d(&self) -> int {
        self.dir as int
    }

    pub fn new(x: i32, y: i32, dirf: i32) -> (p: Position)
        ensures
            p.x() == x,
            p.y() == y,
            p.d() == dirf,
    {
        Position { x_pos: x, y_pos: y, dir: dirf }
    }

    /// The sum of two positions, coordinate by coordinate.
    pub fn add_pos(pos1: &Position, pos2: &Position) -> (p: Position)
        requires
            i32::MIN <= pos1.x() + pos2.x() <= i32::MAX,
            i32::MIN <= pos1.y() + pos2.y() <= i32::MAX,
            i32::MIN <= pos1.d() + pos2.d() <= i32::MAX,
        ensures
            p.x() == pos1.x() + pos2.x(),
            p.y() == pos1.y() + pos2.y(),
            p.d() == pos1.d() + pos2.d(),
    {
        Position {
            x_pos: pos1.x_pos + pos2.x_pos,
            y_pos: pos1.y_pos + pos2.y_pos,
            dir: pos1.dir + pos2.dir,
        }
    }

    pub fn get_x(&self) -> (r: i32)
        ensures
            r == self.x(),
    {
        self.x_pos
    }

    pub fn get_y(&self) -> (r: i32)
        ensures
            r == self.y(),
    {
        self.y_pos
    }

    pub fn get_dir(&self) -> (r: i32)
        ensures
            r == self.d(),
    {
        self.dir
    }

    /// Brings the direction into `0..num_directions` (for a direction that
    /// is at most one full turn negative).
    pub fn normalize_dir(&mut self, num_directions: usize)
        requires
            0 < num_directions <= i32::MAX,
        ensures
            final(self).x() == old(self).x(),
            final(self).y() == old(self).y(),
            final(self).d() == norm_dir(old(self).d(), num_directions as int),
    {
        if self.dir < 0 {
            // Handle negative rotation
            self.dir = num_directions as i32 + self.dir;
        }
        self.dir = self.dir % num_directions as i32;
    }
}

} // verus!
