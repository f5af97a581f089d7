use vstd::prelude::*;

use crate::coords::vec3::Vec3;
use crate::movement::Movement;
use crate::vec2::Vec2;

verus! {

/// A figure's place: column, row and direction.
pub type Position = Vec3<i32>;

/// How a movement changes column, row and direction.
pub open spec fn delta(m: Movement) -> (int, int, int) {
    match m {
        Movement::MoveLeft => (-1, 0, 0),
        Movement::MoveRight => (1, 0, 0),
        Movement::MoveDown => (0, 1, 0),
        Movement::MoveUp => (0, -1, 0),
        Movement::RotateCW => (0, 0, 1),
        Movement::RotateCCW => (0, 0, -1),
    }
}

impl Vec3<i32> {
    /// Whether the movement keeps every coordinate inside `i32`.
    pub open spec fn can_apply(self, m: Movement) -> bool {
        let d = delta(m);
        &&& i32::MIN <= self.x + d.0 <= i32::MAX
        &&& i32::MIN <= self.y + d.1 <= i32::MAX
        &&& i32::MIN <= self.z + d.2 <= i32::MAX
    }

    pub fn apply_move(&self, movement: Movement) -> (r: Self)
        requires
            self.can_apply(movement),
        ensures
            r.x == self.x + delta(movement).0,
            r.y == self.y + delta(movement).1,
            r.z == self.z + delta(movement).2,
    {
        let mut pos = *self;
        match movement {
            Movement::MoveLeft => pos.x = pos.x - 1,
            Movement::MoveRight => pos.x = pos.x + 1,
            Movement::MoveDown => pos.y = pos.y + 1,
            Movement::MoveUp => pos.y = pos.y - 1,
            Movement::RotateCW => pos.z = pos.z + 1,
            Movement::RotateCCW => pos.z = pos.z - 1,
        };
        pos
    }

    pub fn x(&self) -> (r: i32)
        ensures
            r == self.x,
    {
        self.x
    }

    pub fn y(&self) -> (r: i32)
        ensures
            r == self.y,
    {
        self.y
    }

    pub fn dir(&self) -> (r: i32)
        ensures
            r == self.z,
    {
        self.z
    }

    pub fn xy(&self) -> (r: Vec2<i32>)
        ensures
            r.x == self.x,
            r.y == self.y,
    {
        Vec2::new((self.x, self.y))
    }

    /// Brings the direction into `0..num_directions`: the remainder of
    /// the direction by the number of directions, never negative.
    pub fn normalize_dir(&mut self, num_directions: u8)
        requires
            num_directions > 0,
        ensures
            final(self).x == old(self).x,
            final(self).y == old(self).y,
            final(self).z == (old(self).z as int) % (num_directions as int),
    {
        let num_directions = num_directions as i32;
        let ghost z0 = self.z as int;
        let ghost mut k: int = 0;
        while self.z < 0
            invariant
                num_directions > 0,
                self.z == z0 + k * num_directions,
                self.x == old(self).x,
                self.y == old(self).y,
                z0 == old(self).z,
                k >= 0,
            decreases (if self.z < 0 {
                -(self.z as int)
            } else {
                0
            }),
        {
            // Handle negative rotation
            self.z = self.z + num_directions;
            proof {
                k = k + 1;
                assert((k - 1) * num_directions + num_directions == k * num_directions) by (nonlinear_arith);
            }
        }
        proof {
            let n = num_directions as int;
            vstd::arithmetic::div_mod::lemma_mod_multiples_vanish(k, z0, n);
            assert(n * k + z0 == z0 + k * n) by (nonlinear_arith);
        }
        self.z = self.z % num_directions;
    }
}

} // verus!
