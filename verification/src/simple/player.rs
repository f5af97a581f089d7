use vstd::prelude::*;

use crate::grid::pos_dir::norm_dir;
use crate::random::{byte_index, pick_index};
use crate::simple::figure::{clear_under, stamp, Figure};
use crate::simple::playfield::Playfield;
use crate::simple::position::Position;

verus! {

/// A player: the figure in play, where it stands, and the figure that
/// comes next, drawn from the figures available.
#[derive(Debug)]
pub struct Player<'a> {
    player_name: String,
    current_pos: Position,
    avail_figures: &'a Vec<Figure>,
    next_figure: Figure,
    current_figure: Option<Figure>,
}

/// `f` is one of the figures.
pub open spec fn drawn_from(f: Figure, figures: Seq<Figure>) -> bool {
    exists|b: u8|
        {
            let k = #[trigger] byte_index(b, figures.len() as int);
            0 <= k < figures.len() && f.same_as(figures[k])
        }
}

impl<'a> Player<'a> {
    pub closed spec fn name_spec(&self) -> Seq<char> {
        self.player_name@
    }

    pub closed spec fn pos(&self) -> Position {
        self.current_pos
    }

    pub closed spec fn figures(&self) -> Seq<Figure> {
        self.avail_figures@
    }

    pub closed spec fn next(&self) -> Figure {
        self.next_figure
    }

    pub closed spec fn current(&self) -> Option<Figure> {
        self.current_figure
    }

    pub fn new(name: String, figures: &'a Vec<Figure>) -> (p: Player<'a>)
        requires
            figures@.len() % 256 != 0,
        ensures
            p.name_spec() == name@,
            p.pos().x() == -1 && p.pos().y() == -1 && p.pos().d() == -1,
            p.current() is None,
            p.figures() == figures@,
            drawn_from(p.next(), figures@),
    {
        Player {
            player_name: name,
            avail_figures: figures,
            current_pos: Position::new(-1, -1, -1),
            current_figure: None,
            next_figure: Self::get_rand_figure(figures),
        }
    }

    //
    // Get a random figure from array of figures
    //
    fn get_rand_figure(avail_figures: &Vec<Figure>) -> (r: Figure)
        requires
            avail_figures@.len() % 256 != 0,
        ensures
            drawn_from(r, avail_figures@),
    {
        let next_figure = pick_index(avail_figures.len());
        let figure = avail_figures[next_figure].copy_figure();
        assert(figure.same_as(avail_figures@[next_figure as int]));
        figure
    }

    pub fn get_next_figure(&self) -> (r: Figure)
        ensures
            r.same_as(self.next()),
    {
        self.next_figure.copy_figure()
    }

    //
    // Generate next figure to be placed
    //
    pub fn gen_next_figure(&mut self)
        requires
            old(self).figures().len() % 256 != 0,
        ensures
            final(self).name_spec() == old(self).name_spec(),
            final(self).pos() == old(self).pos(),
            final(self).figures() == old(self).figures(),
            final(self).current() == old(self).current(),
            drawn_from(final(self).next(), old(self).figures()),
    {
        self.next_figure = Self::get_rand_figure(self.avail_figures);
    }

    //
    // Place the next figure in playfield.
    // Game is over if this function returns false.
    //
    pub fn place_next_figure(&mut self, pf: &mut Playfield) -> (r: bool)
        requires
            old(pf).wf(),
            old(pf).w() >= 2,
            old(self).figures().len() % 256 != 0,
            old(self).next().dirs().len() > 0,
            old(self).next().fits(old(pf).w() / 2 - 1, 0, 0),
        ensures
            final(self).pos().x() == old(pf).w() / 2 - 1,
            final(self).pos().y() == 0,
            final(self).pos().d() == 0,
            final(self).name_spec() == old(self).name_spec(),
            final(self).figures() == old(self).figures(),
            final(self).current() matches Some(f) && f.same_as(old(self).next()),
            final(pf).wf(),
            final(pf).name_spec() == old(pf).name_spec(),
            final(pf).w() == old(pf).w(),
            final(pf).h() == old(pf).h(),
            r == clear_under(
                old(pf).rows(),
                old(pf).w(),
                old(pf).h(),
                old(self).next().dir_for(0).rows(),
                old(pf).w() / 2 - 1,
                0,
            ),
            r ==> final(pf).rows() == stamp(
                old(pf).rows(),
                old(self).next().dir_for(0).rows(),
                old(pf).w() / 2 - 1,
                0,
                false,
            ),
            r ==> drawn_from(final(self).next(), old(self).figures()),
            !r ==> final(pf).rows() == old(pf).rows() && final(self).next() == old(self).next(),
    {
        self.current_pos = Position::new((pf.width() / 2 - 1) as i32, 0, 0);
        self.current_figure = Some(self.next_figure.copy_figure());
        if !self.next_figure.test_figure(pf, &self.current_pos) {
            return false;
        } else {
            self.next_figure.place_figure(pf, &self.current_pos);
            self.next_figure = Self::get_rand_figure(self.avail_figures);
        }
        return true;
    }

    //
    // Move figure to new (relative) position.
    // If the move is downwards and fails false is returned, else true.
    //
    pub fn move_figure(&mut self, pf: &mut Playfield, rel_pos: &Position) -> (r: bool)
        requires
            old(pf).wf(),
            old(self).current() is Some,
            0 < old(self).current()->0.dirs().len() <= i32::MAX,
            i32::MIN <= old(self).pos().x() + rel_pos.x() <= i32::MAX,
            i32::MIN <= old(self).pos().y() + rel_pos.y() <= i32::MAX,
            i32::MIN <= old(self).pos().d() + rel_pos.d() <= i32::MAX,
            old(self).current()->0.fits_at(old(self).pos()),
            old(self).current()->0.fits(
                old(self).pos().x() + rel_pos.x(),
                old(self).pos().y() + rel_pos.y(),
                norm_dir(old(self).pos().d() + rel_pos.d(), old(self).current()->0.dirs().len() as int) as i32,
            ),
        ensures
            final(self).name_spec() == old(self).name_spec(),
            final(self).figures() == old(self).figures(),
            final(self).current() == old(self).current(),
            final(self).next() == old(self).next(),
            final(pf).wf(),
            final(pf).name_spec() == old(pf).name_spec(),
            final(pf).w() == old(pf).w(),
            final(pf).h() == old(pf).h(),
            ({
                let fig = old(self).current()->0;
                let cur = old(self).pos();
                let nx = cur.x() + rel_pos.x();
                let ny = cur.y() + rel_pos.y();
                let nd = norm_dir(cur.d() + rel_pos.d(), fig.dirs().len() as int);
                let shape = fig.dir_for(cur.d() as i32).rows();
                let new_shape = fig.dir_for(nd as i32).rows();
                let lifted = stamp(old(pf).rows(), shape, cur.x(), cur.y(), true);
                let moved = clear_under(lifted, old(pf).w(), old(pf).h(), new_shape, nx, ny);
                &&& moved ==> final(self).pos().x() == nx && final(self).pos().y() == ny && final(self).pos().d()
                    == nd
                &&& moved ==> final(pf).rows() == stamp(lifted, new_shape, nx, ny, false)
                &&& moved ==> r
                &&& !moved ==> final(self).pos() == cur
                &&& !moved ==> final(pf).rows() == stamp(lifted, shape, cur.x(), cur.y(), false)
                &&& !moved ==> r == (rel_pos.y() == 0)
            }),
    {
        let figure = match &self.current_figure {
            Some(f) => f,
            None => {
                return false;
            },
        };
        let mut new_pos = Position::add_pos(&self.current_pos, &rel_pos);
        new_pos.normalize_dir(figure.num_dirs());
        let result = figure.move_figure(pf, &self.current_pos, &new_pos);
        if result {
            self.current_pos = new_pos;
            return true;
        } else {
            return rel_pos.get_y() == 0;
        }
    }
}

} // verus!
