use vstd::prelude::*;

use crate::coords::figure::Figure;
use crate::coords::playfield::{face_fits_at, face_in, laid, Playfield};
use crate::coords::position::Position;

verus! {

/// A figure together with its place in the playfield.
#[derive(PartialEq, Debug, Clone)]
pub struct FigurePos {
    fig: Figure,
    pos: Position,
}

/// The lowest row of the face's blocks (zero for no blocks).
pub open spec fn lowest(face: Seq<(u8, u8, u8)>) -> int
    decreases face.len(),
{
    if face.len() == 0 {
        0
    } else {
        let m = lowest(face.drop_last());
        if face.last().1 > m {
            face.last().1 as int
        } else {
            m
        }
    }
}

impl FigurePos {
    pub closed spec fn fig_spec(&self) -> Figure {
        self.fig
    }

    pub closed spec fn pos_spec(&self) -> Position {
        self.pos
    }

    /// The face shown at the current direction.
    pub open spec fn face_spec(&self) -> Seq<(u8, u8, u8)> {
        self.fig_spec().face_for(self.pos_spec().z)
    }

    pub fn new(fig: Figure, pos: Position) -> (r: Self)
        requires
            fig.nf() > 0,
        ensures
            r.fig_spec() == fig,
            r.pos_spec().x == pos.x,
            r.pos_spec().y == pos.y,
            r.pos_spec().z == (pos.z as int) % fig.nf(),
    {
        let mut norm_pos = pos;
        norm_pos.normalize_dir(fig.num_faces());
        FigurePos { fig, pos: norm_pos }
    }

    pub fn get_position(&self) -> (r: &Position)
        ensures
            *r == self.pos_spec(),
    {
        &self.pos
    }

    pub fn get_figure(&self) -> (r: &Figure)
        ensures
            *r == self.fig_spec(),
    {
        &self.fig
    }

    pub fn get_face(&self) -> (r: &[(u8, u8, u8)])
        requires
            self.fig_spec().wf(),
        ensures
            r@ == self.face_spec(),
    {
        self.fig.get_face(self.pos.dir() as usize)
    }

    pub fn set_position(&mut self, pos: &Position)
        requires
            old(self).fig_spec().nf() > 0,
        ensures
            final(self).fig_spec() == old(self).fig_spec(),
            final(self).pos_spec().x == pos.x,
            final(self).pos_spec().y == pos.y,
            final(self).pos_spec().z == (pos.z as int) % old(self).fig_spec().nf(),
    {
        let mut norm_pos = *pos;
        norm_pos.normalize_dir(self.fig.num_faces());
        self.pos = norm_pos;
    }

    pub fn place(&self, pf: &mut Playfield)
        requires
            self.fig_spec().wf(),
            old(pf).wf(),
            face_fits_at((self.pos_spec().x as int, self.pos_spec().y as int), self.face_spec()),
            face_in(old(pf).grid(), (self.pos_spec().x as int, self.pos_spec().y as int), self.face_spec()),
        ensures
            final(pf).wf(),
            final(pf).same_frame(old(pf)),
            final(pf).grid() == laid(
                old(pf).grid(),
                (self.pos_spec().x as int, self.pos_spec().y as int),
                self.face_spec(),
                false,
            ),
    {
        self.fig.place(pf, &self.pos);
    }

    pub fn remove(&self, pf: &mut Playfield)
        requires
            self.fig_spec().wf(),
            old(pf).wf(),
            face_fits_at((self.pos_spec().x as int, self.pos_spec().y as int), self.face_spec()),
            face_in(old(pf).grid(), (self.pos_spec().x as int, self.pos_spec().y as int), self.face_spec()),
        ensures
            final(pf).wf(),
            final(pf).same_frame(old(pf)),
            final(pf).grid() == laid(
                old(pf).grid(),
                (self.pos_spec().x as int, self.pos_spec().y as int),
                self.face_spec(),
                true,
            ),
    {
        self.fig.remove(pf, &self.pos);
    }

    fn row_of_lowest_block(face: &[(u8, u8, u8)]) -> (r: u8)
        ensures
            r == lowest(face@),
    {
        let mut lowest_row: u8 = 0;
        let mut i: usize = 0;
        while i < face.len()
            invariant
                0 <= i <= face@.len(),
                lowest_row == lowest(face@.subrange(0, i as int)),
            decreases face@.len() - i,
        {
            let (_x, y, _id) = face[i];
            if y > lowest_row {
                lowest_row = y;
            }
            proof {
                let s1 = face@.subrange(0, i + 1);
                assert(s1.drop_last() =~= face@.subrange(0, i as int));
                assert(s1.last() == face@[i as int]);
            }
            i = i + 1;
        }
        assert(face@.subrange(0, face@.len() as int) =~= face@);
        lowest_row
    }

    /// The row of the lowest block of the figure in the playfield.
    pub fn lowest_block(&self) -> (r: i32)
        requires
            self.fig_spec().wf(),
            self.pos_spec().y + lowest(self.face_spec()) <= i32::MAX,
        ensures
            r == self.pos_spec().y + lowest(self.face_spec()),
    {
        Self::row_of_lowest_block(self.get_face()) as i32 + self.get_position().y()
    }
}

} // verus!
