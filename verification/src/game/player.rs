use vstd::prelude::*;

use crate::grid::figure::Figure;
use crate::grid::figure_pos::FigurePos;
use crate::grid::playfield::Playfield;
use crate::movement::Movement;
use crate::random::{byte_index, pick_index};

verus! {

/// A move and the time it is due.
#[derive(Clone, Copy, Debug, PartialEq, Eq, Structural)]
pub struct MoveAndTime {
    pub movement: Movement,
    pub time: u64,
}

pub struct PlayerStats {
    pub line_count: usize,
}

/// What every player has: a name, the figures it draws from, the next
/// figure, the figure in play, the moves queued and when each kind of
/// move was last queued.
pub struct PlayerCommon {
    name: String,
    time_last_move: Vec<Option<u64>>,
    avail_figures: Vec<Figure>,
    next_figure: Figure,
    figure_in_play: Option<FigurePos>,
    pub stats: PlayerStats,
    pub force_down_time: u64,
    move_queue: Vec<MoveAndTime>,
}

/// The slot of a movement in the table of last move times.
pub open spec fn move_slot(m: Movement) -> int {
    match m {
        Movement::MoveLeft => 0,
        Movement::MoveRight => 1,
        Movement::MoveDown => 2,
        Movement::MoveUp => 3,
        Movement::RotateCW => 4,
        Movement::RotateCCW => 5,
    }
}

fn movement_slot(m: &Movement) -> (r: usize)
    ensures
        r == move_slot(*m),
{
    match m {
        Movement::MoveLeft => 0,
        Movement::MoveRight => 1,
        Movement::MoveDown => 2,
        Movement::MoveUp => 3,
        Movement::RotateCW => 4,
        Movement::RotateCCW => 5,
    }
}

/// `f` is a copy of one of the figures.
pub open spec fn drawn_from(f: Figure, figures: Seq<Figure>) -> bool {
    exists|b: u8|
        {
            let k = #[trigger] byte_index(b, figures.len() as int);
            &&& 0 <= k < figures.len()
            &&& f.name_spec() == figures[k].name_spec()
            &&& f.faces_spec() == figures[k].faces_spec()
            &&& f.wf() == figures[k].wf()
        }
}

/// The entries of the queue due at `ticks`.
pub open spec fn due(q: Seq<MoveAndTime>, ticks: u64) -> bool {
    exists|i: int| 0 <= i < q.len() && (#[trigger] q[i]).time <= ticks
}

impl PlayerCommon {
    pub closed spec fn name_spec(&self) -> Seq<char> {
        self.name@
    }

    /// When each kind of move was last queued, by slot.
    pub closed spec fn last_moves(&self) -> Seq<Option<u64>> {
        self.time_last_move@
    }

    pub closed spec fn figures(&self) -> Seq<Figure> {
        self.avail_figures@
    }

    pub closed spec fn next(&self) -> Figure {
        self.next_figure
    }

    pub closed spec fn in_play(&self) -> Option<FigurePos> {
        self.figure_in_play
    }

    /// The queued moves, in the order they were added.
    pub closed spec fn queue(&self) -> Seq<MoveAndTime> {
        self.move_queue@
    }

    pub closed spec fn fdt(&self) -> u64 {
        self.force_down_time
    }

    pub closed spec fn lines(&self) -> usize {
        self.stats.line_count
    }

    /// One slot per kind of move.
    pub open spec fn wf(&self) -> bool {
        self.last_moves().len() == 6
    }

    /// When a kind of move was last queued; zero if never.
    pub open spec fn last_time(&self, m: Movement) -> u64 {
        match self.last_moves()[move_slot(m)] {
            Some(t) => t,
            None => 0,
        }
    }

    /// Everything but the moves and their times is as in `other`.
    pub open spec fn same_but_moves(&self, other: &PlayerCommon) -> bool {
        &&& self.name_spec() == other.name_spec()
        &&& self.figures() == other.figures()
        &&& self.next() == other.next()
        &&& self.in_play() == other.in_play()
        &&& self.fdt() == other.fdt()
        &&& self.lines() == other.lines()
    }

    pub fn new(name: &str, force_down_time: u64, figures: Vec<Figure>) -> (p: Self)
        requires
            figures@.len() % 256 != 0,
        ensures
            p.wf(),
            p.name_spec() == name@,
            p.fdt() == force_down_time,
            p.lines() == 0,
            p.figures() == figures@,
            drawn_from(p.next(), figures@),
            p.in_play() is None,
            p.queue() == Seq::<MoveAndTime>::empty(),
            forall|i: int| 0 <= i < 6 ==> #[trigger] p.last_moves()[i] is None,
    {
        let next_figure = PlayerCommon::get_rand_figure(&figures).copy_figure();
        PlayerCommon {
            name: name.to_string(),
            stats: PlayerStats { line_count: 0 },
            time_last_move: vec![None, None, None, None, None, None],
            next_figure: next_figure,
            avail_figures: figures,
            figure_in_play: None,
            force_down_time: force_down_time,
            move_queue: Vec::new(),
        }
    }

    fn get_rand_figure(figures: &Vec<Figure>) -> (r: &Figure)
        requires
            figures@.len() % 256 != 0,
        ensures
            exists|b: u8|
                {
                    let k = #[trigger] byte_index(b, figures@.len() as int);
                    0 <= k < figures@.len() && *r == figures@[k]
                },
    {
        let next_figure = pick_index(figures.len());
        return &figures[next_figure];
    }

    pub fn next_figure(&self) -> (r: &Figure)
        ensures
            *r == self.next(),
    {
        &self.next_figure
    }

    pub fn gen_next_figure(&mut self)
        requires
            old(self).figures().len() % 256 != 0,
        ensures
            final(self).wf() == old(self).wf(),
            final(self).name_spec() == old(self).name_spec(),
            final(self).figures() == old(self).figures(),
            final(self).in_play() == old(self).in_play(),
            final(self).queue() == old(self).queue(),
            final(self).last_moves() == old(self).last_moves(),
            final(self).fdt() == old(self).fdt(),
            final(self).lines() == old(self).lines(),
            drawn_from(final(self).next(), old(self).figures()),
    {
        self.next_figure = PlayerCommon::get_rand_figure(&self.avail_figures).copy_figure();
    }

    pub fn get_name(&self) -> (r: &String)
        ensures
            r@ == self.name_spec(),
    {
        &self.name
    }

    pub fn force_down_time(&self) -> (r: u64)
        ensures
            r == self.fdt(),
    {
        self.force_down_time
    }

    pub fn set_figure(&mut self, figure: Option<FigurePos>)
        ensures
            final(self).in_play() == figure,
            final(self).wf() == old(self).wf(),
            final(self).name_spec() == old(self).name_spec(),
            final(self).figures() == old(self).figures(),
            final(self).next() == old(self).next(),
            final(self).queue() == old(self).queue(),
            final(self).last_moves() == old(self).last_moves(),
            final(self).fdt() == old(self).fdt(),
            final(self).lines() == old(self).lines(),
    {
        self.figure_in_play = figure;
    }

    /// A copy of the figure in play, if any.
    pub fn get_figure(&self) -> (r: Option<FigurePos>)
        ensures
            r is Some == self.in_play() is Some,
            r matches Some(f) ==> ({
                let g = self.in_play()->0;
                &&& f.fig_spec().name_spec() == g.fig_spec().name_spec()
                &&& f.fig_spec().faces_spec() == g.fig_spec().faces_spec()
                &&& f.fig_spec().wf() == g.fig_spec().wf()
                &&& f.pos_spec() == g.pos_spec()
            }),
    {
        match &self.figure_in_play {
            Some(f) => Some(f.copy()),
            None => None,
        }
    }

    pub fn add_move(&mut self, movement: Movement, ticks: u64)
        requires
            old(self).wf(),
        ensures
            final(self).wf(),
            final(self).same_but_moves(old(self)),
            final(self).queue() == old(self).queue().push(MoveAndTime { movement: movement, time: ticks }),
            final(self).last_moves() == if ticks > old(self).last_time(movement) {
                old(self).last_moves().update(move_slot(movement), Some(ticks))
            } else {
                old(self).last_moves()
            },
    {
        self.set_time_of_last_move(&movement, ticks);
        let move_time = MoveAndTime { movement: movement, time: ticks };
        self.move_queue.push(move_time);
    }

    fn time_for_next_move(&self, ticks: u64) -> (r: bool)
        ensures
            r == due(self.queue(), ticks),
    {
        let mut i: usize = 0;
        while i < self.move_queue.len()
            invariant
                0 <= i <= self.queue().len(),
                forall|k: int| 0 <= k < i ==> (#[trigger] self.queue()[k]).time > ticks,
            decreases self.queue().len() - i,
        {
            if self.move_queue[i].time <= ticks {
                return true;
            }
            i = i + 1;
        }
        return false;
    }

    /// Takes out the earliest queued move if it is due at `ticks`; of
    /// equally early moves, the one queued first.
    pub fn get_next_move(&mut self, ticks: u64) -> (r: Option<MoveAndTime>)
        ensures
            final(self).wf() == old(self).wf(),
            final(self).same_but_moves(old(self)),
            final(self).last_moves() == old(self).last_moves(),
            r is Some == due(old(self).queue(), ticks),
            r is None ==> final(self).queue() == old(self).queue(),
            r matches Some(e) ==> exists|i: int|
                0 <= i < old(self).queue().len() && old(self).queue()[i] == e && (forall|j: int|
                    0 <= j < old(self).queue().len() ==> e.time <= (#[trigger] old(self).queue()[j]).time)
                    && (forall|j: int| 0 <= j < i ==> e.time < (#[trigger] old(self).queue()[j]).time)
                    && final(self).queue() == old(self).queue().remove(i),
    {
        if self.time_for_next_move(ticks) {
            // The earliest move, the first added among equally early ones
            let mut best: usize = 0;
            let mut i: usize = 1;
            while i < self.move_queue.len()
                invariant
                    self.queue().len() > 0,
                    1 <= i <= self.queue().len(),
                    0 <= best < i,
                    forall|k: int| 0 <= k < i ==> self.queue()[best as int].time <= (#[trigger] self.queue()[k]).time,
                    forall|k: int| 0 <= k < best ==> self.queue()[best as int].time < (#[trigger] self.queue()[k]).time,
                decreases self.queue().len() - i,
            {
                if self.move_queue[i].time < self.move_queue[best].time {
                    best = i;
                }
                i = i + 1;
            }
            let e = self.move_queue.remove(best);
            return Some(e);
        }
        return None;
    }

    fn set_time_of_last_move(&mut self, movement: &Movement, time: u64)
        requires
            old(self).wf(),
        ensures
            final(self).wf(),
            final(self).same_but_moves(old(self)),
            final(self).queue() == old(self).queue(),
            final(self).last_moves() == if time > old(self).last_time(*movement) {
                old(self).last_moves().update(move_slot(*movement), Some(time))
            } else {
                old(self).last_moves()
            },
    {
        if time > self.time_last_move(movement) {
            let slot = movement_slot(movement);
            self.time_last_move.set(slot, Some(time));
        }
    }

    pub fn time_last_move(&self, movement: &Movement) -> (r: u64)
        requires
            self.wf(),
        ensures
            r == self.last_time(*movement),
    {
        let slot = movement_slot(movement);
        if let Some(time) = self.time_last_move[slot] {
            return time;
        }
        return 0;
    }

    /// When a kind of move was last queued, if ever.
    pub fn last_move_at(&self, movement: &Movement) -> (r: Option<u64>)
        requires
            self.wf(),
        ensures
            r == self.last_moves()[move_slot(*movement)],
    {
        self.time_last_move[movement_slot(movement)]
    }

    pub fn time_since_move(&self, ticks: u64, movement: &Movement) -> (r: i64)
        requires
            self.wf(),
            ticks <= i64::MAX,
            self.last_time(*movement) <= i64::MAX,
        ensures
            r == ticks - self.last_time(*movement),
    {
        let last_move = self.time_last_move(movement) as i64;
        ticks as i64 - last_move
    }

    pub fn figure_in_play(&self) -> (r: bool)
        ensures
            r == self.in_play() is Some,
    {
        self.figure_in_play.is_some()
    }

    /// Queues a forced move down once the figure in play has gone
    /// `force_down_time` without one.
    pub fn update(&mut self, ticks: u64, _pf: &Playfield)
        requires
            old(self).wf(),
            ticks <= i64::MAX,
            old(self).last_time(Movement::MoveDown) <= i64::MAX,
        ensures
            final(self).wf(),
            final(self).same_but_moves(old(self)),
            ({
                let due_down = old(self).in_play() is Some && ticks - old(self).last_time(Movement::MoveDown)
                    >= old(self).fdt() as i64;
                &&& due_down ==> final(self).queue() == old(self).queue().push(
                    MoveAndTime { movement: Movement::MoveDown, time: ticks },
                )
                &&& due_down ==> final(self).last_moves() == if ticks > old(self).last_time(
                    Movement::MoveDown,
                ) {
                    old(self).last_moves().update(move_slot(Movement::MoveDown), Some(ticks))
                } else {
                    old(self).last_moves()
                }
                &&& !due_down ==> final(self).queue() == old(self).queue() && final(self).last_moves()
                    == old(self).last_moves()
            }),
    {
        if self.figure_in_play() {
            let time_since_down = self.time_since_move(ticks, &Movement::MoveDown);
            if time_since_down >= self.force_down_time as i64 {
                self.add_move(Movement::MoveDown, (ticks as i64) as u64);
            }
        }
    }
}

} // verus!
