use vstd::prelude::*;

use crate::grid::position::Position;
use crate::grid::vec3::Vec3;
use crate::movement::Movement;

verus! {

/// A figure's place in the playfield: column, row and direction (face index).
pub type PosDir = Vec3<i32>;

/// How a movement changes column, row and direction.
pub open spec fn move_delta(m: Movement) -> (int, int, int) {
    match m {
        Movement::MoveLeft => (-1, 0, 0),
        Movement::MoveRight => (1, 0, 0),
        Movement::MoveDown => (0, 1, 0),
        Movement::MoveUp => (0, -1, 0),
        Movement::RotateCW => (0, 0, 1),
        Movement::RotateCCW => (0, 0, -1),
    }
}

/// Remainder of a division that rounds towards zero, by a positive divisor.
pub open spec fn trunc_rem(a: int, n: int) -> int {
    if a >= 0 {
        a % n
    } else {
        -((-a) % n)
    }
}

/// The direction after a turn into the range of `n` directions: one
/// negative turn is undone by adding `n`, then the remainder is taken.
pub open spec fn norm_dir(z: int, n: int) -> int {
    let z1 = if z < 0 { n + z } else { z };
    trunc_rem(z1, n)
}

/// A normalized direction stays strictly between `-n` and `n`.
pub proof fn lemma_norm_dir_bounds(z: int, n: int)
    requires
        n > 0,
    ensures
        -n < norm_dir(z, n) < n,
{
    let z1 = if z < 0 {
        n + z
    } else {
        z
    };
    if z1 >= 0 {
        assert(0 <= z1 % n < n) by (nonlinear_arith)
            requires
                n > 0,
                z1 >= 0,
        ;
    } else {
        assert(0 <= (-z1) % n < n) by (nonlinear_arith)
            requires
                n > 0,
                z1 < 0,
        ;
    }
    assert(norm_dir(z, n) == trunc_rem(z1, n));
}

impl Vec3<i32> {
    /// Whether the movement keeps every coordinate inside `i32`.
    pub open spec fn can_move(self, m: Movement) -> bool {
        let d = move_delta(m);
        &&& i32::MIN <= self.x + d.0 <= i32::MAX
        &&& i32::MIN <= self.y + d.1 <= i32::MAX
        &&& i32::MIN <= self.z + d.2 <= i32::MAX
    }

    /// The coordinates after a movement.
    pub open spec fn moved(self, m: Movement) -> (int, int, int) {
        let d = move_delta(m);
        (self.x + d.0, self.y + d.1, self.z + d.2)
    }

    pub open spec fn coords(self) -> (int, int, int) {
        (self.x as int, self.y as int, self.z as int)
    }

    pub fn apply_move(&self, movement: &Movement) -> (r: Self)
        requires
            self.can_move(*movement),
        ensures
            r.coords() == self.moved(*movement),
    {
        let mut pos = *self;
        match *movement {
            Movement::MoveLeft => pos.x = pos.x - 1,
            Movement::MoveRight => pos.x = pos.x + 1,
            Movement::MoveDown => pos.y = pos.y + 1,
            Movement::MoveUp => pos.y = pos.y - 1,
            Movement::RotateCW => pos.z = pos.z + 1,
            Movement::RotateCCW => pos.z = pos.z - 1,
        };
        pos
    }

    pub fn get_x(&self) -> (r: i32)
        ensures
            r == self.x,
    {
        self.x
    }

    pub fn get_y(&self) -> (r: i32)
        ensures
            r == self.y,
    {
        self.y
    }

    pub fn get_dir(&self) -> (r: i32)
        ensures
            r == self.z,
    {
        self.z
    }

    pub fn get_pos(&self) -> (p: Position)
        ensures
            p.x == self.x,
            p.y == self.y,
    {
        Position { x: self.x, y: self.y }
    }

    /// Brings the direction into `0..num_directions` (for a direction that
    /// is at most one full turn negative).
    pub fn normalize_dir(&mut self, num_directions: usize)
        requires
            0 < num_directions <= i32::MAX,
        ensures
            final(self).x == old(self).x,
            final(self).y == old(self).y,
            final(self).z == norm_dir(old(self).z as int, num_directions as int),
    {
        let n = num_directions as i32;
        if self.z < 0 {
            // Handle negative rotation
            self.z = n + self.z;
        }
        self.z = self.z % n;
    }
}

/// The movement that takes a figure back: left and right, down and up,
/// and the two turns undo each other.
pub open spec fn opposite(m: Movement) -> Movement {
    match m {
        Movement::MoveLeft => Movement::MoveRight,
        Movement::MoveRight => Movement::MoveLeft,
        Movement::MoveDown => Movement::MoveUp,
        Movement::MoveUp => Movement::MoveDown,
        Movement::RotateCW => Movement::RotateCCW,
        Movement::RotateCCW => Movement::RotateCW,
    }
}

/// A movement followed by its opposite brings a place back to where it
/// was.
pub proof fn law_move_undone(p: PosDir, q: PosDir, m: Movement)
    requires
        q.coords() == p.moved(m),
    ensures
        q.can_move(opposite(m)),
        q.moved(opposite(m)) == p.coords(),
{
}

/// A direction normalized for `n` directions lies among them, for every
/// direction from one turn below the range on.
pub proof fn law_norm_dir_range(z: int, n: int)
    requires
        0 < n,
        -n <= z,
    ensures
        0 <= norm_dir(z, n) < n,
{
}

/// Turning one way and then the other, normalizing after each turn, gives
/// back the direction one started from.
pub proof fn law_turn_undone(z: int, n: int)
    requires
        0 <= z < n,
    ensures
        norm_dir(norm_dir(z + 1, n) - 1, n) == z,
        norm_dir(norm_dir(z - 1, n) + 1, n) == z,
{
    if z + 1 < n {
        assert((z + 1) % n == z + 1) by (nonlinear_arith)
            requires
                0 <= z + 1 < n,
        ;
        assert(z % n == z) by (nonlinear_arith)
            requires
                0 <= z < n,
        ;
    } else {
        assert((z + 1) % n == 0) by (nonlinear_arith)
            requires
                z + 1 == n,
                0 < n,
        ;
        assert((n - 1) % n == n - 1) by (nonlinear_arith)
            requires
                0 < n,
        ;
    }
    if z >= 1 {
        assert((z - 1) % n == z - 1) by (nonlinear_arith)
            requires
                0 <= z - 1 < n,
        ;
        assert(z % n == z) by (nonlinear_arith)
            requires
                0 <= z < n,
        ;
    } else {
        assert((n - 1) % n == n - 1) by (nonlinear_arith)
            requires
                0 < n,
        ;
        assert(n % n == 0) by (nonlinear_arith)
            requires
                0 < n,
        ;
    }
}

} // verus!
