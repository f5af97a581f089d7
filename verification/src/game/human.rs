use vstd::prelude::*;

use crate::game::player::{move_slot, PlayerCommon};
use crate::grid::figure_pos::FigurePos;
use crate::grid::playfield::Playfield;
use crate::movement::Movement;

verus! {

/// How long a new figure waits before it first falls by itself.
pub const DELAY_FIRST_STEP_DOWN: u64 = 1000000000;

/// The keys, by key code, that move a human player's figure.
pub struct KeyMap {
    pub step_left: Option<i32>,
    pub step_right: Option<i32>,
    pub step_down: Option<i32>,
    pub rot_cw: Option<i32>,
    pub rot_ccw: Option<i32>,
}

/// A player moved by keys.
pub struct HumanPlayer {
    common: PlayerCommon,
    key_map: KeyMap,
    moves: Vec<(Movement, u64)>,
    last_forced_down_time: u64,
    delay_first_step_down: u64,
}

/// The movement a key stands for: the first of left, right, down, turn
/// clockwise and turn counter-clockwise whose key it is.
pub open spec fn key_movement(km: KeyMap, key: i32) -> Option<Movement> {
    if km.step_left == Some(key) {
        Some(Movement::MoveLeft)
    } else if km.step_right == Some(key) {
        Some(Movement::MoveRight)
    } else if km.step_down == Some(key) {
        Some(Movement::MoveDown)
    } else if km.rot_cw == Some(key) {
        Some(Movement::RotateCW)
    } else if km.rot_ccw == Some(key) {
        Some(Movement::RotateCCW)
    } else {
        None
    }
}

/// The key bound to a movement, if any: each action of the key map has its
/// own movement, and moving up has no key.
pub open spec fn bound_key(km: KeyMap, m: Movement) -> Option<i32> {
    match m {
        Movement::MoveLeft => km.step_left,
        Movement::MoveRight => km.step_right,
        Movement::MoveDown => km.step_down,
        Movement::RotateCW => km.rot_cw,
        Movement::RotateCCW => km.rot_ccw,
        Movement::MoveUp => None,
    }
}

/// The order in which the actions of a key map are tried when one key is
/// bound to several: left, right, down, clockwise, counter-clockwise.
pub open spec fn action_rank(m: Movement) -> int {
    match m {
        Movement::MoveLeft => 0,
        Movement::MoveRight => 1,
        Movement::MoveDown => 2,
        Movement::RotateCW => 3,
        Movement::RotateCCW => 4,
        Movement::MoveUp => 5,
    }
}

/// A key stands for a movement exactly when it is bound to that movement's
/// action and to no action tried before it; a key bound to no action
/// stands for none.
pub proof fn law_key_movement(km: KeyMap, key: i32, m: Movement)
    ensures
        key_movement(km, key) == Some(m) <==> bound_key(km, m) == Some(key) && forall|e: Movement|
            action_rank(e) < action_rank(m) ==> bound_key(km, e) != Some(key),
        key_movement(km, key) is None <==> forall|e: Movement| bound_key(km, e) != Some(key),
{
    if key_movement(km, key) is None {
        assert forall|e: Movement| bound_key(km, e) != Some(key) by {
            match e {
                Movement::MoveLeft => {},
                Movement::MoveRight => {},
                Movement::MoveDown => {},
                Movement::RotateCW => {},
                Movement::RotateCCW => {},
                Movement::MoveUp => {},
            }
        }
    }
    if bound_key(km, m) == Some(key) && forall|e: Movement|
        action_rank(e) < action_rank(m) ==> bound_key(km, e) != Some(key) {
        assert(bound_key(km, Movement::MoveLeft) != Some(key) || m == Movement::MoveLeft);
        assert(action_rank(m) <= 1 || bound_key(km, Movement::MoveRight) != Some(key));
        assert(action_rank(m) <= 2 || bound_key(km, Movement::MoveDown) != Some(key));
        assert(action_rank(m) <= 3 || bound_key(km, Movement::RotateCW) != Some(key));
    }
    if key_movement(km, key) is Some {
        let m2 = key_movement(km, key)->0;
        assert(bound_key(km, m2) == Some(key));
    }
    if key_movement(km, key) == Some(m) {
        assert forall|e: Movement| action_rank(e) < action_rank(m) implies bound_key(km, e) != Some(key) by {
            match e {
                Movement::MoveLeft => {},
                Movement::MoveRight => {},
                Movement::MoveDown => {},
                Movement::RotateCW => {},
                Movement::RotateCCW => {},
                Movement::MoveUp => {},
            }
        }
    }
}

/// Whether a held key moves again: at once when just pressed, then after
/// being held 200 ms with 50 ms since the last such move.
pub open spec fn key_repeats(ticks: int, pressed_at: int, last_move: int) -> bool {
    ticks <= pressed_at || (ticks - pressed_at > 200000000 && ticks - last_move > 50000000)
}

/// The moves the held keys give, in the order of the keys.
pub open spec fn key_moves(km: KeyMap, common: PlayerCommon, ticks: u64, keys: Seq<(i32, u64)>) -> Seq<
    (Movement, u64),
>
    decreases keys.len(),
{
    if keys.len() == 0 {
        Seq::empty()
    } else {
        let prev = key_moves(km, common, ticks, keys.drop_last());
        let (key, pressed_at) = keys.last();
        match key_movement(km, key) {
            Some(m) => if key_repeats(ticks as int, pressed_at as int, common.last_time(m) as int) {
                prev.push((m, ticks))
            } else {
                prev
            },
            None => prev,
        }
    }
}

impl HumanPlayer {
    pub closed spec fn common_spec(&self) -> PlayerCommon {
        self.common
    }

    pub closed spec fn keys(&self) -> KeyMap {
        self.key_map
    }

    /// The moves gathered and not yet taken.
    pub closed spec fn pending(&self) -> Seq<(Movement, u64)> {
        self.moves@
    }

    pub closed spec fn delay(&self) -> u64 {
        self.delay_first_step_down
    }

    pub fn new(common: PlayerCommon, key_map: KeyMap) -> (p: Self)
        ensures
            p.common_spec() == common,
            p.keys() == key_map,
            p.pending() == Seq::<(Movement, u64)>::empty(),
            p.delay() == 0,
    {
        HumanPlayer {
            common: common,
            key_map: key_map,
            moves: Vec::new(),
            last_forced_down_time: 0,
            delay_first_step_down: 0,
        }
    }

    pub fn common(&self) -> (r: &PlayerCommon)
        ensures
            *r == self.common_spec(),
    {
        &self.common
    }

    pub fn common_mut(&mut self) -> (r: &mut PlayerCommon)
        ensures
            *r == old(self).common_spec(),
            final(self).common_spec() == *final(r),
            final(self).keys() == old(self).keys(),
            final(self).pending() == old(self).pending(),
            final(self).delay() == old(self).delay(),
    {
        &mut self.common
    }

    /// Takes the gathered moves.
    pub fn get_moves(&mut self, _current_ticks: u64) -> (r: Vec<(Movement, u64)>)
        ensures
            r@ == old(self).pending(),
            final(self).pending() == Seq::<(Movement, u64)>::empty(),
            final(self).common_spec() == old(self).common_spec(),
            final(self).keys() == old(self).keys(),
            final(self).delay() == old(self).delay(),
    {
        let mut moves: Vec<(Movement, u64)> = Vec::new();
        std::mem::swap(&mut moves, &mut self.moves);
        return moves;
    }

    /// Once the first delay has passed, gathers a move down when the last
    /// one is older than the time to fall.
    pub fn update(&mut self, current_ticks: u64, _pf: &Playfield)
        requires
            old(self).common_spec().wf(),
            old(self).common_spec().last_time(Movement::MoveDown) + old(self).common_spec().fdt() <= u64::MAX,
        ensures
            final(self).common_spec() == old(self).common_spec(),
            final(self).keys() == old(self).keys(),
            final(self).delay() == old(self).delay(),
            final(self).pending() == if current_ticks > old(self).delay() && (old(
                self,
            ).common_spec().last_moves()[move_slot(Movement::MoveDown)] is None || old(
                self,
            ).common_spec().last_time(Movement::MoveDown) + old(self).common_spec().fdt() < current_ticks) {
                old(self).pending().push((Movement::MoveDown, current_ticks))
            } else {
                old(self).pending()
            },
    {
        if current_ticks > self.delay_first_step_down {
            let last_move = self.common.last_move_at(&Movement::MoveDown);
            let due = match last_move {
                None => true,
                Some(t) => t + self.common.force_down_time() < current_ticks,
            };
            if due {
                self.moves.push((Movement::MoveDown, current_ticks));
            }
        }
    }

    /// A new figure waits a while before it first falls by itself.
    pub fn handle_new_figure(&mut self, current_ticks: u64, _pf: &Playfield, _fig_pos: &FigurePos)
        requires
            current_ticks + DELAY_FIRST_STEP_DOWN <= u64::MAX,
        ensures
            final(self).delay() == current_ticks + DELAY_FIRST_STEP_DOWN,
            final(self).common_spec() == old(self).common_spec(),
            final(self).keys() == old(self).keys(),
            final(self).pending() == old(self).pending(),
    {
        self.delay_first_step_down = current_ticks + DELAY_FIRST_STEP_DOWN;
    }

    /// Gathers the moves of the held keys, each given with the time it was
    /// pressed.
    pub fn handle_input(&mut self, current_ticks: u64, pressed_keys: &Vec<(i32, u64)>)
        requires
            old(self).common_spec().wf(),
            forall|i: int| 0 <= i < pressed_keys@.len() ==> (#[trigger] pressed_keys@[i]).1 <= current_ticks,
            forall|m: Movement| #[trigger] old(self).common_spec().last_time(m) <= current_ticks,
        ensures
            final(self).common_spec() == old(self).common_spec(),
            final(self).keys() == old(self).keys(),
            final(self).delay() == old(self).delay(),
            final(self).pending() == old(self).pending() + key_moves(
                old(self).keys(),
                old(self).common_spec(),
                current_ticks,
                pressed_keys@,
            ),
    {
        let mut i: usize = 0;
        while i < pressed_keys.len()
            invariant
                self.common_spec() == old(self).common_spec(),
                self.keys() == old(self).keys(),
                self.delay() == old(self).delay(),
                self.common_spec().wf(),
                forall|k: int| 0 <= k < pressed_keys@.len() ==> (#[trigger] pressed_keys@[k]).1 <= current_ticks,
                forall|m: Movement| #[trigger] self.common_spec().last_time(m) <= current_ticks,
                0 <= i <= pressed_keys@.len(),
                self.pending() == old(self).pending() + key_moves(
                    old(self).keys(),
                    old(self).common_spec(),
                    current_ticks,
                    pressed_keys@.subrange(0, i as int),
                ),
            decreases pressed_keys@.len() - i,
        {
            let (key, pressed_at) = pressed_keys[i];
            let ghost before = self.pending();
            proof {
                let s1 = pressed_keys@.subrange(0, i + 1);
                assert(s1.drop_last() =~= pressed_keys@.subrange(0, i as int));
                assert(s1.last() == pressed_keys@[i as int]);
            }
            match self.key_to_movement(key) {
                Some(movement) => {
                    assert(self.common_spec().last_time(movement) <= current_ticks);
                    let time_last_move = current_ticks - self.common.time_last_move(&movement);
                    let time_pressed = current_ticks - pressed_at;
                    if current_ticks <= pressed_at {
                        self.moves.push((movement, current_ticks));
                    } else if time_pressed > 200000000 && time_last_move > 50000000 {
                        self.moves.push((movement, current_ticks));
                    }
                },
                None => {},
            }
            assert(self.pending() =~= old(self).pending() + key_moves(
                old(self).keys(),
                old(self).common_spec(),
                current_ticks,
                pressed_keys@.subrange(0, i + 1),
            ));
            i = i + 1;
        }
        assert(pressed_keys@.subrange(0, pressed_keys@.len() as int) =~= pressed_keys@);
    }

    /// The movement a key stands for, if any.
    pub fn key_to_movement(&self, key: i32) -> (r: Option<Movement>)
        ensures
            r == key_movement(self.keys(), key),
            forall|m: Movement|
                r == Some(m) <==> bound_key(self.keys(), m) == Some(key) && forall|e: Movement|
                    action_rank(e) < action_rank(m) ==> bound_key(self.keys(), e) != Some(key),
            r is None <==> forall|e: Movement| bound_key(self.keys(), e) != Some(key),
    {
        proof {
            assert forall|m: Movement|
                key_movement(self.keys(), key) == Some(m) <==> bound_key(self.keys(), m) == Some(key) && forall|
                    e: Movement,
                | action_rank(e) < action_rank(m) ==> bound_key(self.keys(), e) != Some(key) by {
                law_key_movement(self.keys(), key, m);
            }
            law_key_movement(self.keys(), key, Movement::MoveUp);
        }
        if self.key_map.step_left == Some(key) {
            return Some(Movement::MoveLeft);
        } else if self.key_map.step_right == Some(key) {
            return Some(Movement::MoveRight);
        } else if self.key_map.step_down == Some(key) {
            return Some(Movement::MoveDown);
        } else if self.key_map.rot_cw == Some(key) {
            return Some(Movement::RotateCW);
        } else if self.key_map.rot_ccw == Some(key) {
            return Some(Movement::RotateCCW);
        }
        return None;
    }
}

} // verus!
