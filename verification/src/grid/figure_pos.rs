use vstd::prelude::*;

use crate::cells::Cells;
use crate::grid::block::Block;
use crate::grid::figure::Figure;
use crate::grid::figure_face::{lowest_row, lowest_row_spec};
use crate::grid::matrix2::Matrix2;
use crate::grid::playfield::{cleared, covers, source, Playfield};
use crate::grid::pos_dir::{norm_dir, PosDir};

verus! {

/// A figure together with its place in the playfield.
#[derive(Debug, Clone)]
pub struct FigurePos {
    fig: Figure,
    pos: PosDir,
}

impl FigurePos {
    pub closed spec fn fig_spec(&self) -> Figure {
        self.fig
    }

    pub closed spec fn pos_spec(&self) -> PosDir {
        self.pos
    }

    /// The figure is well formed and has between one and `i32::MAX` faces.
    pub open spec fn wf(&self) -> bool {
        &&& self.fig_spec().wf()
        &&& 0 < self.fig_spec().num_faces() <= i32::MAX
    }

    /// The face shown at the current direction.
    pub open spec fn face_spec(&self) -> Cells<Block> {
        self.fig_spec().face_for(self.pos_spec().z)
    }

    pub fn new(fig: Figure, pos: PosDir) -> (r: Self)
        requires
            fig.wf(),
            0 < fig.num_faces() <= i32::MAX,
        ensures
            r.wf(),
            r.fig_spec() == fig,
            r.pos_spec().x == pos.x,
            r.pos_spec().y == pos.y,
            r.pos_spec().z == norm_dir(pos.z as int, fig.num_faces()),
    {
        let mut norm_pos = pos;
        norm_pos.normalize_dir(fig.faces().len());
        FigurePos { fig, pos: norm_pos }
    }

    /// A copy of the figure and its place.
    pub fn copy(&self) -> (r: FigurePos)
        ensures
            r.fig_spec().name_spec() == self.fig_spec().name_spec(),
            r.fig_spec().faces_spec() == self.fig_spec().faces_spec(),
            r.fig_spec().wf() == self.fig_spec().wf(),
            r.pos_spec() == self.pos_spec(),
    {
        FigurePos { fig: self.fig.copy_figure(), pos: self.pos }
    }

    pub fn get_position(&self) -> (r: &PosDir)
        ensures
            *r == self.pos_spec(),
    {
        &self.pos
    }

    pub fn get_figure(&self) -> (r: &Figure)
        ensures
            *r == self.fig_spec(),
    {
        &self.fig
    }

    pub fn get_face(&self) -> (r: &Matrix2<Block>)
        requires
            self.wf(),
        ensures
            r@ == self.face_spec(),
            r.wf(),
            r@.tl == (0int, 0int),
    {
        self.fig.get_face(self.pos.get_dir() as usize)
    }

    pub fn set_position(&mut self, pos: &PosDir)
        requires
            old(self).wf(),
        ensures
            final(self).wf(),
            final(self).fig_spec() == old(self).fig_spec(),
            final(self).pos_spec().x == pos.x,
            final(self).pos_spec().y == pos.y,
            final(self).pos_spec().z == norm_dir(pos.z as int, old(self).fig_spec().num_faces()),
    {
        let mut norm_pos = *pos;
        norm_pos.normalize_dir(self.fig.faces().len());
        self.pos = norm_pos;
    }

    pub fn place(&self, pf: &mut Playfield)
        requires
            self.wf(),
            self.fig_spec().fits_at(self.pos_spec().x as int, self.pos_spec().y as int),
            old(pf).wf(),
        ensures
            final(pf).wf(),
            final(pf).same_frame(old(pf)),
            forall|x: int, y: int|
                final(pf).inside(x, y) ==> #[trigger] final(pf).block(x, y) == (if covers(
                    self.face_spec(),
                    (self.pos_spec().x as int, self.pos_spec().y as int),
                    (x, y),
                ) {
                    self.face_spec().at(
                        source((self.pos_spec().x as int, self.pos_spec().y as int), (x, y)),
                    )
                } else {
                    old(pf).block(x, y)
                }),
    {
        self.fig.place(pf, &self.pos);
    }

    pub fn remove(&self, pf: &mut Playfield)
        requires
            self.wf(),
            self.fig_spec().fits_at(self.pos_spec().x as int, self.pos_spec().y as int),
            old(pf).wf(),
        ensures
            final(pf).wf(),
            final(pf).same_frame(old(pf)),
            forall|x: int, y: int|
                final(pf).inside(x, y) ==> #[trigger] final(pf).block(x, y) == (if covers(
                    self.face_spec(),
                    (self.pos_spec().x as int, self.pos_spec().y as int),
                    (x, y),
                ) {
                    cleared()
                } else {
                    old(pf).block(x, y)
                }),
    {
        self.fig.remove(pf, &self.pos);
    }

    /// The playfield row of the figure's lowest set block.
    pub fn lowest_block(&self) -> (r: i32)
        requires
            self.wf(),
            i32::MIN <= lowest_row_spec(self.face_spec()) + self.pos_spec().y <= i32::MAX,
        ensures
            r == lowest_row_spec(self.face_spec()) + self.pos_spec().y,
    {
        lowest_row(self.get_face()) + self.get_position().get_y()
    }
}

/// Over any run of calls that each keep the figure (moving to a new place
/// does), a figure's position keeps the figure it was made with.
pub proof fn law_figure_kept(fps: Seq<FigurePos>)
    requires
        fps.len() > 0,
        forall|i: int| 0 <= i < fps.len() - 1 ==> #[trigger] fps[i + 1].fig_spec() == fps[i].fig_spec(),
    ensures
        forall|i: int| 0 <= i < fps.len() ==> (#[trigger] fps[i]).fig_spec() == fps[0].fig_spec(),
    decreases fps.len(),
{
    if fps.len() > 1 {
        let init = fps.drop_last();
        assert forall|i: int| 0 <= i < init.len() - 1 implies #[trigger] init[i + 1].fig_spec() == init[i].fig_spec() by {
            assert(init[i + 1] == fps[i + 1] && init[i] == fps[i]);
        }
        law_figure_kept(init);
        assert forall|i: int| 0 <= i < fps.len() implies (#[trigger] fps[i]).fig_spec() == fps[0].fig_spec() by {
            if i < fps.len() - 1 {
                assert(fps[i] == init[i]);
            } else {
                let k = i - 1;
                assert(fps[k + 1].fig_spec() == fps[k].fig_spec());
                assert(fps[i - 1] == init[i - 1]);
            }
        }
    }
}

/// A position made or moved with a direction from one turn below the
/// range on has its direction among the figure's faces.
pub proof fn law_dir_in_range(fp: FigurePos, z: int)
    requires
        fp.fig_spec().num_faces() > 0,
        z >= -fp.fig_spec().num_faces(),
        fp.pos_spec().z == norm_dir(z, fp.fig_spec().num_faces()),
    ensures
        0 <= fp.pos_spec().z < fp.fig_spec().num_faces(),
{
    crate::grid::pos_dir::law_norm_dir_range(z, fp.fig_spec().num_faces());
}

} // verus!
