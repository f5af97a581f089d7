use vstd::prelude::*;

use crate::cells::Cells;
use crate::grid::block::Block;
use crate::grid::matrix2::Matrix2;
use crate::grid::playfield::{cleared, covers, face_fits, source, Playfield};
use crate::grid::position::Position;
use crate::vec2::Vec2;

verus! {

/// Row `y` of the face holds a set block.
pub open spec fn row_has_block(c: Cells<Block>, y: int) -> bool {
    exists|x: int| c.tl.0 <= x < c.br.0 && #[trigger] c.at((x, y)).occupied()
}

/// The lowest of the first `k` rows that holds a set block, or `i32::MIN`
/// when none does.
pub open spec fn lowest_row_upto(c: Cells<Block>, k: int) -> int
    decreases k,
{
    if k <= 0 {
        i32::MIN as int
    } else if row_has_block(c, c.tl.1 + k - 1) && c.tl.1 + k - 1 > lowest_row_upto(c, k - 1) {
        c.tl.1 + k - 1
    } else {
        lowest_row_upto(c, k - 1)
    }
}

/// The lowest row of the face that holds a set block, or `i32::MIN` when
/// the face is empty.
pub open spec fn lowest_row_spec(c: Cells<Block>) -> int {
    lowest_row_upto(c, c.height())
}

/// The lowest row of a face that holds a set block, or `i32::MIN` when the
/// face is empty.
pub fn lowest_row(face: &Matrix2<Block>) -> (r: i32)
    requires
        face.wf(),
        face@.tl == (0int, 0int),
    ensures
        r == lowest_row_spec(face@),
{
    let mut lowest = i32::MIN;
    let w = face.width() as i32;
    let h = face.height() as i32;
    let mut y: i32 = 0;
    while y < h
        invariant
            face.wf(),
            face@.tl == (0int, 0int),
            w == face@.width(),
            h == face@.height(),
            0 <= y <= h,
            lowest == lowest_row_upto(face@, y as int),
        decreases h - y,
    {
        let mut any = false;
        let mut x: i32 = 0;
        while x < w
            invariant
                face.wf(),
                face@.tl == (0int, 0int),
                w == face@.width(),
                h == face@.height(),
                0 <= y < h,
                0 <= x <= w,
                any == exists|xx: int| 0 <= xx < x && #[trigger] face@.at((xx, y as int)).occupied(),
            decreases w - x,
        {
            proof {
                face@.lemma_contains_index((x as int, y as int));
            }
            if face.get(Vec2 { x, y }).is_set() {
                any = true;
            }
            x = x + 1;
        }
        if any && y > lowest {
            lowest = y;
        }
        y = y + 1;
    }
    lowest
}

/// One face of a figure: a grid of blocks starting at (0, 0).
#[derive(Eq, PartialEq, Clone, Debug)]
pub struct FigureFace {
    blocks: Matrix2<Block>,
}

impl FigureFace {
    pub closed spec fn face(&self) -> Cells<Block> {
        self.blocks@
    }

    pub closed spec fn wf(&self) -> bool {
        &&& self.blocks.wf()
        &&& self.blocks@.tl == (0int, 0int)
    }

    /// The face can be laid at `pos` without leaving `i32`.
    pub closed spec fn fits(&self, pos: (int, int)) -> bool {
        face_fits(&self.blocks, pos)
    }

    pub fn new(blocks: &[&[Block]]) -> (f: FigureFace)
        requires
            blocks@.len() >= 1,
            blocks@[0]@.len() >= 1,
            forall|y: int| 0 <= y < blocks@.len() ==> #[trigger] blocks@[y]@.len() >= blocks@[0]@.len(),
            blocks@.len() * blocks@[0]@.len() <= i32::MAX,
        ensures
            f.wf(),
            f.face().tl == (0int, 0int),
            f.face().br == (blocks@[0]@.len() as int, blocks@.len() as int),
            forall|x: int, y: int|
                0 <= y < blocks@.len() && 0 <= x < blocks@[0]@.len() ==> #[trigger] f.face().at((x, y))
                    == blocks@[y]@[x],
    {
        FigureFace { blocks: Matrix2::from_items(blocks) }
    }

    pub fn new_empty(width: u32, height: u32) -> (f: FigureFace)
        requires
            width <= i32::MAX,
            height <= i32::MAX,
            width * height <= i32::MAX,
        ensures
            f.wf(),
            f.face().tl == (0int, 0int),
            f.face().br == (width as int, height as int),
            forall|i: int| 0 <= i < f.face().cells.len() ==> #[trigger] f.face().cells[i] == cleared(),
    {
        FigureFace { blocks: Matrix2::from_size(width, height, Block::new_not_set()) }
    }

    pub fn row_of_lowest_block(&self) -> (r: i32)
        requires
            self.wf(),
        ensures
            r == lowest_row_spec(self.face()),
    {
        lowest_row(&self.blocks)
    }

    pub fn width(&self) -> (r: u32)
        requires
            self.wf(),
        ensures
            r == self.face().width(),
    {
        self.blocks.width()
    }

    pub fn height(&self) -> (r: u32)
        requires
            self.wf(),
        ensures
            r == self.face().height(),
    {
        self.blocks.height()
    }

    pub fn get_block(&self, point: Position) -> (r: &Block)
        requires
            self.wf(),
            self.face().index_ok(point.pt()),
        ensures
            *r == self.face().at(point.pt()),
    {
        self.blocks.get(point.to_vec2())
    }

    pub fn set_block(&mut self, point: Position, block: Block)
        requires
            old(self).wf(),
            old(self).face().index_ok(point.pt()),
        ensures
            final(self).wf(),
            final(self).face() == old(self).face().set(point.pt(), block),
    {
        self.blocks.set(point.to_vec2(), block);
    }

    pub fn place(&self, pf: &mut Playfield, pos: Position)
        requires
            self.wf(),
            self.fits(pos.pt()),
            old(pf).wf(),
        ensures
            final(pf).wf(),
            final(pf).same_frame(old(pf)),
            forall|x: int, y: int|
                final(pf).inside(x, y) ==> #[trigger] final(pf).block(x, y) == (if covers(
                    self.face(),
                    pos.pt(),
                    (x, y),
                ) {
                    self.face().at(source(pos.pt(), (x, y)))
                } else {
                    old(pf).block(x, y)
                }),
    {
        pf.place(pos, &self.blocks);
    }

    pub fn remove(&self, pf: &mut Playfield, pos: Position)
        requires
            self.wf(),
            self.fits(pos.pt()),
            old(pf).wf(),
        ensures
            final(pf).wf(),
            final(pf).same_frame(old(pf)),
            forall|x: int, y: int|
                final(pf).inside(x, y) ==> #[trigger] final(pf).block(x, y) == (if covers(
                    self.face(),
                    pos.pt(),
                    (x, y),
                ) {
                    cleared()
                } else {
                    old(pf).block(x, y)
                }),
    {
        pf.remove(pos, &self.blocks);
    }

    pub fn test_collision(&self, pf: &Playfield, pos: Position) -> (r: bool)
        requires
            self.wf(),
            self.fits(pos.pt()),
            pf.wf(),
        ensures
            r == pf.collides(self.face(), pos.pt()),
    {
        pf.test_collision(pos, &self.blocks)
    }
}

} // verus!
