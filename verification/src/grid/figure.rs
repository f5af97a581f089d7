use vstd::prelude::*;

use crate::cells::Cells;
use crate::grid::block::Block;
use crate::grid::matrix2::Matrix2;
use crate::grid::playfield::{face_fits, Playfield};
use crate::grid::pos_dir::PosDir;
use crate::vec2::Vec2;

verus! {

/// A face turned a quarter turn: the cell at column `x`, row `y` of the
/// result is the cell at column `y`, row `height - 1 - x` of the face.
pub open spec fn rotated(c: Cells<Block>) -> Cells<Block> {
    let w = c.width();
    let h = c.height();
    Cells {
        tl: (0, 0),
        br: (h, w),
        cells: Seq::new((w * h) as nat, |i: int| c.at((i / h, h - 1 - i % h))),
    }
}

/// Appends a face unless it is there already.
pub open spec fn push_new(s: Seq<Cells<Block>>, f: Cells<Block>) -> Seq<Cells<Block>> {
    if s.contains(f) {
        s
    } else {
        s.push(f)
    }
}

/// The distinct faces met by turning a face a quarter turn at a time.
pub open spec fn rotations(f0: Cells<Block>) -> Seq<Cells<Block>> {
    let f1 = rotated(f0);
    let f2 = rotated(f1);
    let f3 = rotated(f2);
    push_new(push_new(push_new(seq![f0], f1), f2), f3)
}

pub proof fn lemma_rotated(c: Cells<Block>)
    requires
        c.wf(),
    ensures
        rotated(c).wf(),
        forall|x: int, y: int|
            0 <= x < c.height() && 0 <= y < c.width() ==> #[trigger] rotated(c).at((x, y)) == c.at(
                (y, c.height() - 1 - x),
            ),
{
    let w = c.width();
    let h = c.height();
    let r = rotated(c);
    assert(w * h == h * w) by (nonlinear_arith);
    assert forall|x: int, y: int| 0 <= x < h && 0 <= y < w implies #[trigger] r.at((x, y)) == c.at(
        (y, h - 1 - x),
    ) by {
        let i = y * h + x;
        vstd::arithmetic::div_mod::lemma_fundamental_div_mod_converse(i, h, y, x);
        r.lemma_contains_index((x, y));
    }
}

/// A figure: a name and the distinct faces it shows when turned.
#[derive(Clone, Debug)]
pub struct Figure {
    figure_name: String,
    vfaces: Vec<Matrix2<Block>>,
}

impl Figure {
    pub closed spec fn name_spec(&self) -> Seq<char> {
        self.figure_name@
    }

    /// The faces of the figure.
    pub closed spec fn faces_spec(&self) -> Seq<Cells<Block>> {
        self.vfaces@.map_values(|m: Matrix2<Block>| m@)
    }

    /// Every face is a well-formed grid starting at (0, 0).
    pub closed spec fn wf(&self) -> bool {
        forall|i: int| 0 <= i < self.vfaces@.len() ==> (#[trigger] self.vfaces@[i]).wf()
            && self.vfaces@[i]@.tl == (0int, 0int)
    }

    /// A copy of the figure.
    pub fn copy_figure(&self) -> (r: Figure)
        ensures
            r.name_spec() == self.name_spec(),
            r.faces_spec() == self.faces_spec(),
            r.wf() == self.wf(),
    {
        let mut faces: Vec<Matrix2<Block>> = Vec::new();
        let mut i: usize = 0;
        while i < self.vfaces.len()
            invariant
                0 <= i <= self.vfaces@.len(),
                faces@.len() == i,
                forall|k: int|
                    0 <= k < i ==> (#[trigger] faces@[k])@ == self.vfaces@[k]@ && faces@[k].wf()
                        == self.vfaces@[k].wf(),
            decreases self.vfaces@.len() - i,
        {
            faces.push(self.vfaces[i].copy());
            i = i + 1;
        }
        let r = Figure { figure_name: self.figure_name.clone(), vfaces: faces };
        assert(r.faces_spec() =~= self.faces_spec());
        proof {
            if self.wf() {
                assert forall|i: int| 0 <= i < r.vfaces@.len() implies (#[trigger] r.vfaces@[i]).wf()
                    && r.vfaces@[i]@.tl == (0int, 0int) by {
                    assert(self.vfaces@[i].wf());
                }
            }
            if r.wf() {
                assert forall|i: int| 0 <= i < self.vfaces@.len() implies (#[trigger] self.vfaces@[i]).wf()
                    && self.vfaces@[i]@.tl == (0int, 0int) by {
                    assert(r.vfaces@[i].wf());
                }
            }
        }
        r
    }

    pub fn new(name: &str) -> (f: Figure)
        ensures
            f.wf(),
            f.name_spec() == name@,
            f.faces_spec() == Seq::<Cells<Block>>::empty(),
    {
        let f = Figure { figure_name: name.to_string(), vfaces: vec![] };
        assert(f.faces_spec() =~= Seq::<Cells<Block>>::empty());
        f
    }

    fn rotate_face(face: &Matrix2<Block>) -> (r: Matrix2<Block>)
        requires
            face.wf(),
            face@.tl == (0int, 0int),
        ensures
            r.wf(),
            r@ == rotated(face@),
    {
        let w = face.width();
        let h = face.height();
        proof {
            assert(h * w == w * h) by (nonlinear_arith);
        }
        let mut next_face = Matrix2::from_size(h, w, Block::new_not_set());
        let mut y: u32 = 0;
        while y < h
            invariant
                face.wf(),
                face@.tl == (0int, 0int),
                w == face@.width(),
                h == face@.height(),
                next_face.wf(),
                next_face@.tl == (0int, 0int),
                next_face@.br == (h as int, w as int),
                0 <= y <= h,
                forall|x: int, yy: int|
                    0 <= x < y && 0 <= yy < w ==> #[trigger] next_face@.at((x, yy)) == face@.at(
                        (yy, h - 1 - x),
                    ),
            decreases h - y,
        {
            let mut x: u32 = 0;
            while x < w
                invariant
                    face.wf(),
                    face@.tl == (0int, 0int),
                    w == face@.width(),
                    h == face@.height(),
                    next_face.wf(),
                    next_face@.tl == (0int, 0int),
                    next_face@.br == (h as int, w as int),
                    0 <= y < h,
                    0 <= x <= w,
                    forall|xx: int, yy: int|
                        (0 <= xx < y && 0 <= yy < w) || (xx == y && 0 <= yy < x)
                            ==> #[trigger] next_face@.at((xx, yy)) == face@.at((yy, h - 1 - xx)),
                decreases w - x,
            {
                let ty = (h - y - 1) as i32;
                proof {
                    face@.lemma_contains_index((x as int, ty as int));
                    next_face@.lemma_contains_index((y as int, x as int));
                }
                let b = *face.get(Vec2 { x: x as i32, y: ty });
                let ghost prev = next_face@;
                next_face.set(Vec2 { x: y as i32, y: x as i32 }, b);
                proof {
                    assert forall|xx: int, yy: int|
                        (0 <= xx < y && 0 <= yy < w) || (xx == y && 0 <= yy < x + 1)
                            implies #[trigger] next_face@.at((xx, yy)) == face@.at((yy, h - 1 - xx)) by {
                        if xx == y && yy == x {
                            prev.law_at_set_same((y as int, x as int), b);
                        } else {
                            prev.law_at_set_other((y as int, x as int), (xx, yy), b);
                        }
                    }
                }
                x = x + 1;
            }
            y = y + 1;
        }
        proof {
            lemma_rotated(face@);
            next_face@.lemma_ext_equal(rotated(face@));
        }
        next_face
    }

    fn test_face_present(&self, face: &Matrix2<Block>) -> (r: bool)
        ensures
            r == self.faces_spec().contains(face@),
    {
        let mut i: usize = 0;
        while i < self.vfaces.len()
            invariant
                0 <= i <= self.vfaces@.len(),
                forall|j: int| 0 <= j < i ==> self.faces_spec()[j] != face@,
            decreases self.vfaces@.len() - i,
        {
            if self.vfaces[i].same_as(face) {
                assert(self.faces_spec()[i as int] == face@);
                return true;
            }
            i = i + 1;
        }
        false
    }

    fn push_if_new(&mut self, face: Matrix2<Block>)
        requires
            old(self).wf(),
            face.wf(),
            face@.tl == (0int, 0int),
        ensures
            final(self).wf(),
            final(self).name_spec() == old(self).name_spec(),
            final(self).faces_spec() == push_new(old(self).faces_spec(), face@),
    {
        let ghost before = self.faces_spec();
        if !self.test_face_present(&face) {
            let ghost fv = face@;
            self.vfaces.push(face);
            assert(self.faces_spec() =~= before.push(fv));
        }
    }

    //
    // Build new figure by rotating the face of a figure 90 degrees
    //
    pub fn new_from_face(name: &str, blocks: &[&[Block]]) -> (fig: Figure)
        requires
            blocks@.len() >= 1,
            blocks@[0]@.len() >= 1,
            forall|y: int| 0 <= y < blocks@.len() ==> #[trigger] blocks@[y]@.len() >= blocks@[0]@.len(),
            blocks@.len() * blocks@[0]@.len() <= i32::MAX,
        ensures
            fig.wf(),
            fig.name_spec() == name@,
            fig.faces_spec().len() >= 1,
            fig.faces_spec()[0].tl == (0int, 0int),
            fig.faces_spec()[0].br == (blocks@[0]@.len() as int, blocks@.len() as int),
            forall|x: int, y: int|
                0 <= y < blocks@.len() && 0 <= x < blocks@[0]@.len() ==> #[trigger] fig.faces_spec()[0].at(
                    (x, y),
                ) == blocks@[y]@[x],
            fig.faces_spec() == rotations(fig.faces_spec()[0]),
    {
        let mut fig = Figure::new(name);
        let face0 = Matrix2::from_items(blocks);
        let face1 = Self::rotate_face(&face0);
        let face2 = Self::rotate_face(&face1);
        let face3 = Self::rotate_face(&face2);
        let ghost f0 = face0@;
        fig.vfaces.push(face0);
        assert(fig.faces_spec() =~= seq![f0]);
        fig.push_if_new(face1);
        fig.push_if_new(face2);
        fig.push_if_new(face3);
        fig
    }

    pub open spec fn num_faces(&self) -> int {
        self.faces_spec().len() as int
    }

    /// The face shown in direction `dir`: directions wrap around the faces.
    pub open spec fn face_for(&self, dir: i32) -> Cells<Block> {
        self.faces_spec()[((dir as usize) as int) % self.num_faces()]
    }

    /// Every face laid with its top-left cell at (x, y) stays inside `i32`.
    pub open spec fn fits_at(&self, x: int, y: int) -> bool {
        &&& i32::MIN <= x
        &&& i32::MIN <= y
        &&& forall|i: int|
            0 <= i < self.num_faces() ==> x + (#[trigger] self.faces_spec()[i]).width() <= i32::MAX && y
                + self.faces_spec()[i].height() <= i32::MAX
    }

    pub fn get_name(&self) -> (r: &String)
        ensures
            r@ == self.name_spec(),
    {
        &self.figure_name
    }

    pub fn faces(&self) -> (r: &Vec<Matrix2<Block>>)
        requires
            self.wf(),
        ensures
            r@.len() == self.num_faces(),
            forall|i: int|
                0 <= i < r@.len() ==> (#[trigger] r@[i])@ == self.faces_spec()[i] && r@[i].wf()
                    && r@[i]@.tl == (0int, 0int),
    {
        &self.vfaces
    }

    pub fn get_face(&self, face_index: usize) -> (r: &Matrix2<Block>)
        requires
            self.wf(),
            self.num_faces() > 0,
        ensures
            r@ == self.faces_spec()[face_index as int % self.num_faces()],
            r.wf(),
            r@.tl == (0int, 0int),
    {
        let face_index = face_index % self.vfaces.len();
        &self.vfaces[face_index]
    }

    //
    // Place figure in playfield
    //
    pub fn place(&self, pf: &mut Playfield, pos: &PosDir)
        requires
            self.wf(),
            self.num_faces() > 0,
            self.fits_at(pos.x as int, pos.y as int),
            old(pf).wf(),
        ensures
            final(pf).wf(),
            final(pf).same_frame(old(pf)),
            forall|x: int, y: int|
                final(pf).inside(x, y) ==> #[trigger] final(pf).block(x, y) == (if crate::grid::playfield::covers(
                    self.face_for(pos.z),
                    (pos.x as int, pos.y as int),
                    (x, y),
                ) {
                    self.face_for(pos.z).at(
                        crate::grid::playfield::source((pos.x as int, pos.y as int), (x, y)),
                    )
                } else {
                    old(pf).block(x, y)
                }),
    {
        let face = self.get_face(pos.get_dir() as usize);
        pf.place(pos.get_pos(), face);
    }

    //
    // Remove figure from playfield
    //
    pub fn remove(&self, pf: &mut Playfield, pos: &PosDir)
        requires
            self.wf(),
            self.num_faces() > 0,
            self.fits_at(pos.x as int, pos.y as int),
            old(pf).wf(),
        ensures
            final(pf).wf(),
            final(pf).same_frame(old(pf)),
            forall|x: int, y: int|
                final(pf).inside(x, y) ==> #[trigger] final(pf).block(x, y) == (if crate::grid::playfield::covers(
                    self.face_for(pos.z),
                    (pos.x as int, pos.y as int),
                    (x, y),
                ) {
                    crate::grid::playfield::cleared()
                } else {
                    old(pf).block(x, y)
                }),
    {
        let face = self.get_face(pos.get_dir() as usize);
        pf.remove(pos.get_pos(), face);
    }

    pub fn test_collision(&self, pf: &Playfield, pos: &PosDir) -> (r: bool)
        requires
            self.wf(),
            self.num_faces() > 0,
            self.fits_at(pos.x as int, pos.y as int),
            pf.wf(),
        ensures
            r == pf.collides(self.face_for(pos.z), (pos.x as int, pos.y as int)),
    {
        let face = self.get_face(pos.get_dir() as usize);
        pf.test_collision(pos.get_pos(), face)
    }

    pub proof fn lemma_face_tl(&self, i: int)
        requires
            self.wf(),
            0 <= i < self.num_faces(),
        ensures
            self.faces_spec()[i].tl == (0int, 0int),
            self.faces_spec()[i].wf(),
            self.faces_spec()[i].width() <= i32::MAX,
            self.faces_spec()[i].height() <= i32::MAX,
    {
        assert(self.vfaces@[i].wf());
    }
}

} // verus!
