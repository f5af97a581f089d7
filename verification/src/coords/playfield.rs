use vstd::prelude::*;

use crate::cells::Cells;
use crate::coords::block::Block;
use crate::coords::figure::cells_distinct;
use crate::coords::matrix2::Matrix2;
use crate::grid::playfield::lemma_u32_as_i32;
use crate::vec2::Vec2;

verus! {

/// The block that every point outside the playfield reads as.
pub open spec fn outside() -> Block {
    Block::Filled(0)
}

/// The block of a cleared cell.
pub open spec fn cleared() -> Block {
    Block::Clear
}

/// The playfield: a named grid of blocks whose top-left corner is (0, 0).
#[derive(Debug, Clone)]
pub struct Playfield {
    pf_name: String,
    blocks: Matrix2<Block>,
    outside_block: Block,
}

impl Playfield {
    /// The blocks of the playfield.
    pub closed spec fn grid(&self) -> Cells<Block> {
        self.blocks@
    }

    pub closed spec fn name_spec(&self) -> Seq<char> {
        self.pf_name@
    }

    /// Well-formedness: the grid starts at (0, 0), is rectangular, its
    /// sizes fit an `i32`, and the outside reads as a locked block.
    pub closed spec fn wf(&self) -> bool {
        &&& self.blocks.wf()
        &&& self.blocks@.tl == (0int, 0int)
        &&& self.outside_block == outside()
    }

    pub open spec fn w(&self) -> int {
        self.grid().width()
    }

    pub open spec fn h(&self) -> int {
        self.grid().height()
    }

    pub open spec fn inside(&self, x: int, y: int) -> bool {
        0 <= x < self.w() && 0 <= y < self.h()
    }

    /// The block at a point; every point outside reads as `outside()`.
    pub open spec fn block(&self, x: int, y: int) -> Block {
        if self.inside(x, y) {
            self.grid().at((x, y))
        } else {
            outside()
        }
    }

    pub open spec fn occupied(&self, x: int, y: int) -> bool {
        self.block(x, y) is Filled
    }

    /// Every block of row `y` is set.
    pub open spec fn row_full(&self, y: int) -> bool {
        forall|x: int| 0 <= x < self.w() ==> #[trigger] self.block(x, y) is Filled
    }

    /// The full rows among the first `k` rows, from the top.
    pub open spec fn full_rows_upto(&self, k: int) -> Seq<u32>
        decreases k,
    {
        if k <= 0 {
            Seq::empty()
        } else if self.row_full(k - 1) {
            self.full_rows_upto(k - 1).push((k - 1) as u32)
        } else {
            self.full_rows_upto(k - 1)
        }
    }

    /// The full rows of the playfield, from the top.
    pub open spec fn full_rows(&self) -> Seq<u32> {
        self.full_rows_upto(self.h())
    }

    /// The lines listed as full among the first `k` are exactly the full
    /// lines above row `k`, each once, from the top.
    pub proof fn law_full_rows(&self, k: int)
        requires
            0 <= k <= self.h(),
            self.h() <= i32::MAX,
        ensures
            forall|j: int|
                0 <= j < self.full_rows_upto(k).len() ==> 0 <= #[trigger] self.full_rows_upto(k)[j] < k
                    && self.row_full(self.full_rows_upto(k)[j] as int),
            forall|i: int, j: int|
                0 <= i < j < self.full_rows_upto(k).len() ==> self.full_rows_upto(k)[i]
                    < self.full_rows_upto(k)[j],
            forall|y: int| 0 <= y < k && self.row_full(y) ==> self.full_rows_upto(k).contains(y as u32),
        decreases k,
    {
        if k > 0 {
            self.law_full_rows(k - 1);
            let prev = self.full_rows_upto(k - 1);
            if self.row_full(k - 1) {
                let cur = prev.push((k - 1) as u32);
                assert forall|y: int| 0 <= y < k && self.row_full(y) implies cur.contains(y as u32) by {
                    if y < k - 1 {
                        let j = choose|j: int| 0 <= j < prev.len() && prev[j] == y as u32;
                        assert(cur[j] == y as u32);
                    } else {
                        assert(cur[prev.len() as int] == y as u32);
                    }
                }
            }
        }
    }

    /// Same sizes, same name.
    pub open spec fn same_frame(&self, other: &Playfield) -> bool {
        &&& self.w() == other.w()
        &&& self.h() == other.h()
        &&& self.name_spec() == other.name_spec()
    }

    /// The sides of a well-formed playfield fit an `i32`.
    pub proof fn lemma_wf(&self)
        requires
            self.wf(),
        ensures
            self.w() >= 0,
            self.h() >= 0,
            self.grid().wf(),
            self.grid().tl == (0int, 0int),
            self.w() <= i32::MAX,
            self.h() <= i32::MAX,
            self.w() * self.h() <= u32::MAX,
    {
    }

    pub fn new(name: &str, width: u32, height: u32) -> (pf: Playfield)
        requires
            width <= i32::MAX,
            height <= i32::MAX,
            width * height <= u32::MAX,
        ensures
            pf.wf(),
            pf.name_spec() == name@,
            pf.w() == width,
            pf.h() == height,
            forall|x: int, y: int| pf.inside(x, y) ==> #[trigger] pf.block(x, y) == cleared(),
    {
        let pf = Playfield {
            pf_name: name.to_string(),
            blocks: Matrix2::from_size(width, height, Block::Clear),
            outside_block: Block::Filled(0),
        };
        proof {
            assert forall|x: int, y: int| pf.inside(x, y) implies #[trigger] pf.block(x, y) == cleared() by {
                pf.grid().lemma_contains_index((x, y));
            }
        }
        pf
    }

    pub fn get_block(&self, pos: Vec2<i32>) -> (r: &Block)
        requires
            self.wf(),
        ensures
            *r == self.block(pos.x as int, pos.y as int),
    {
        let p = pos;
        if !self.blocks.contains(p) {
            &self.outside_block
        } else {
            proof {
                self.grid().lemma_contains_index(p.pt());
            }
            self.blocks.get(p)
        }
    }

    /// Writes a block at a point of the playfield; points outside are left alone.
    pub fn set_block(&mut self, pos: Vec2<i32>, block: Block)
        requires
            old(self).wf(),
        ensures
            final(self).wf(),
            final(self).same_frame(old(self)),
            final(self).grid() == (if old(self).inside(pos.x as int, pos.y as int) {
                old(self).grid().set(pos.pt(), block)
            } else {
                old(self).grid()
            }),
    {
        let p = pos;
        if self.blocks.contains(p) {
            proof {
                self.grid().lemma_contains_index(p.pt());
            }
            self.blocks.set(p, block);
        }
    }

    pub fn width(&self) -> (r: u32)
        requires
            self.wf(),
        ensures
            r == self.w(),
    {
        self.blocks.width()
    }

    pub fn height(&self) -> (r: u32)
        requires
            self.wf(),
        ensures
            r == self.h(),
    {
        self.blocks.height()
    }

    pub fn contains(&self, pos: Vec2<i32>) -> (r: bool)
        requires
            self.wf(),
        ensures
            r == self.inside(pos.x as int, pos.y as int),
    {
        self.blocks.contains(pos)
    }

    pub fn block_is_set(&self, pos: Vec2<i32>) -> (r: bool)
        requires
            self.wf(),
        ensures
            r == self.occupied(pos.x as int, pos.y as int),
    {
        self.get_block(pos).is_set()
    }

    pub fn clear_block(&mut self, pos: Vec2<i32>)
        requires
            old(self).wf(),
        ensures
            final(self).wf(),
            final(self).same_frame(old(self)),
            final(self).grid() == (if old(self).inside(pos.x as int, pos.y as int) {
                old(self).grid().set(pos.pt(), cleared())
            } else {
                old(self).grid()
            }),
    {
        self.set_block(pos, Block::Clear);
    }

    /// Whether every block of row `y` is set.
    fn line_is_full(&self, y: i32) -> (r: bool)
        requires
            self.wf(),
            0 <= y < self.h(),
        ensures
            r == self.row_full(y as int),
    {
        let w = self.blocks.width() as i32;
        let mut x: i32 = 0;
        while x < w
            invariant
                self.wf(),
                0 <= y < self.h(),
                w == self.w(),
                0 <= x <= w,
                forall|xx: int| 0 <= xx < x ==> #[trigger] self.block(xx, y as int) is Filled,
            decreases w - x,
        {
            proof {
                self.grid().lemma_contains_index((x as int, y as int));
            }
            if !self.blocks.get(Vec2 { x, y }).is_set() {
                assert(self.block(x as int, y as int) !is Filled);
                return false;
            }
            x = x + 1;
        }
        true
    }

    /// The full lines, from the top.
    pub fn locked_lines(&self) -> (r: Vec<u32>)
        requires
            self.wf(),
            self.w() > 0,
        ensures
            r@ == self.full_rows(),
    {
        let mut full_lines: Vec<u32> = vec![];
        let h = self.blocks.height() as i32;
        let mut y: i32 = 0;
        while y < h
            invariant
                self.wf(),
                h == self.h(),
                0 <= y <= h,
                full_lines@ == self.full_rows_upto(y as int),
            decreases h - y,
        {
            if self.line_is_full(y) {
                full_lines.push(y as u32);
            }
            y = y + 1;
        }
        full_lines
    }

    /// The number of full lines.
    pub fn count_locked_lines(&self) -> (r: u32)
        requires
            self.wf(),
            self.w() > 0,
        ensures
            r == self.full_rows().len(),
    {
        let h = self.blocks.height() as i32;
        let mut count: u32 = 0;
        let mut y: i32 = 0;
        while y < h
            invariant
                self.wf(),
                h == self.h(),
                0 <= y <= h,
                count == self.full_rows_upto(y as int).len(),
                count <= y,
            decreases h - y,
        {
            if self.line_is_full(y) {
                count = count + 1;
            }
            y = y + 1;
        }
        count
    }

    /// Fills every listed line with the block.
    pub fn set_lines(&mut self, lines: &[u32], block: &Block)
        requires
            old(self).wf(),
        ensures
            final(self).wf(),
            final(self).same_frame(old(self)),
            forall|x: int, y: int|
                final(self).inside(x, y) ==> #[trigger] final(self).block(x, y) == (if lines@.contains(
                    y as u32,
                ) {
                    *block
                } else {
                    old(self).block(x, y)
                }),
    {
        let ghost old_pf = *self;
        let mut i: usize = 0;
        while i < lines.len()
            invariant
                self.wf(),
                self.same_frame(&old_pf),
                old_pf.wf(),
                0 <= i <= lines@.len(),
                forall|x: int, y: int|
                    self.inside(x, y) ==> #[trigger] self.block(x, y) == (if lines@.subrange(
                        0,
                        i as int,
                    ).contains(y as u32) {
                        *block
                    } else {
                        old_pf.block(x, y)
                    }),
            decreases lines@.len() - i,
        {
            let line = lines[i];
            let ghost before = *self;
            let w = self.blocks.width();
            let mut x: u32 = 0;
            while x < w
                invariant
                    self.wf(),
                    self.same_frame(&before),
                    before.wf(),
                    w == before.w(),
                    0 <= x <= w,
                    forall|xx: int, yy: int|
                        self.inside(xx, yy) ==> #[trigger] self.block(xx, yy) == (if yy == line as i32
                            && xx < x {
                            *block
                        } else {
                            before.block(xx, yy)
                        }),
                decreases w - x,
            {
                let ghost prev = *self;
                self.set_block(Vec2 { x: x as i32, y: line as i32 }, *block);
                proof {
                    lemma_u32_as_i32(line);
                    let p = (x as int, line as i32 as int);
                    assert(prev.inside(p.0, p.1) ==> self.grid() == prev.grid().set(p, *block));
                    assert forall|xx: int, yy: int| self.inside(xx, yy) implies #[trigger] self.block(xx, yy) == (
                    if yy == line as i32 && xx < x + 1 {
                        *block
                    } else {
                        before.block(xx, yy)
                    }) by {
                        assert(prev.inside(xx, yy));
                        if prev.inside(p.0, p.1) {
                            if xx == p.0 && yy == p.1 {
                                prev.grid().law_at_set_same(p, *block);
                                assert(self.block(xx, yy) == *block);
                            } else {
                                prev.grid().law_at_set_other(p, (xx, yy), *block);
                                assert(self.block(xx, yy) == prev.block(xx, yy));
                            }
                        } else {
                            assert(self.grid() == prev.grid());
                            assert(self.block(xx, yy) == prev.block(xx, yy));
                        }
                    }
                }
                x = x + 1;
            }
            proof {
                assert forall|xx: int, yy: int| self.inside(xx, yy) implies #[trigger] self.block(xx, yy) == (
                if lines@.subrange(0, i + 1).contains(yy as u32) {
                    *block
                } else {
                    old_pf.block(xx, yy)
                }) by {
                    lemma_u32_as_i32(line);
                    let s0 = lines@.subrange(0, i as int);
                    let s1 = lines@.subrange(0, i + 1);
                    assert(s1 == s0.push(line));
                    assert(0 <= yy < i32::MAX);
                    if yy == line as i32 {
                        assert(line as int == yy);
                        assert(s1[i as int] == yy as u32);
                    } else {
                        if s1.contains(yy as u32) {
                            let k = choose|k: int| 0 <= k < s1.len() && s1[k] == yy as u32;
                            if k < i {
                                assert(s0[k] == yy as u32);
                            } else {
                                assert(line == yy as u32);
                            }
                        }
                        if s0.contains(yy as u32) {
                            let k = choose|k: int| 0 <= k < s0.len() && s0[k] == yy as u32;
                            assert(s1[k] == yy as u32);
                        }
                    }
                }
            }
            i = i + 1;
        }
        proof {
            assert(lines@.subrange(0, lines@.len() as int) == lines@);
        }
    }

    /// The block that row `line` being thrown away leaves at a point: rows
    /// below `line` keep theirs, rows up to `line` take the one above, and
    /// the top row is cleared.
    pub open spec fn after_throw(&self, line: int, x: int, y: int) -> Block {
        if y > line {
            self.block(x, y)
        } else if y >= 1 {
            self.block(x, y - 1)
        } else {
            cleared()
        }
    }

    //
    // Remove a line from playfield and move all lines above downwards
    //
    pub fn throw_line(&mut self, line: u32)
        requires
            old(self).wf(),
            line <= i32::MAX,
        ensures
            final(self).wf(),
            final(self).same_frame(old(self)),
            forall|x: int, y: int|
                final(self).inside(x, y) ==> #[trigger] final(self).block(x, y) == old(
                    self,
                ).after_throw(line as int, x, y),
    {
        let ghost old_pf = *self;
        let w = self.blocks.width() as i32;
        let mut y: i32 = line as i32;
        loop
            invariant_except_break
                0 <= y <= line,
                forall|xx: int, yy: int|
                    self.inside(xx, yy) ==> #[trigger] self.block(xx, yy) == (if yy > y {
                        old_pf.after_throw(line as int, xx, yy)
                    } else {
                        old_pf.block(xx, yy)
                    }),
            invariant
                self.wf(),
                old_pf.wf(),
                self.same_frame(&old_pf),
                w == old_pf.w(),
            ensures
                forall|xx: int, yy: int|
                    self.inside(xx, yy) ==> #[trigger] self.block(xx, yy) == old_pf.after_throw(
                        line as int,
                        xx,
                        yy,
                    ),
            decreases y,
        {
            let mut x: i32 = 0;
            while x < w
                invariant
                    self.wf(),
                    old_pf.wf(),
                    self.same_frame(&old_pf),
                    w == old_pf.w(),
                    0 <= y <= line,
                    0 <= x <= w,
                    forall|xx: int, yy: int|
                        self.inside(xx, yy) ==> #[trigger] self.block(xx, yy) == (if yy > y || (yy
                            == y && xx < x) {
                            old_pf.after_throw(line as int, xx, yy)
                        } else {
                            old_pf.block(xx, yy)
                        }),
                decreases w - x,
            {
                let ghost prev = *self;
                let block = if y >= 1 {
                    *self.get_block(Vec2 { x: x, y: y - 1 })
                } else {
                    Block::Clear
                };
                assert(block == old_pf.after_throw(line as int, x as int, y as int));
                self.set_block(Vec2 { x: x, y: y }, block);
                proof {
                    let p = (x as int, y as int);
                    assert forall|xx: int, yy: int| self.inside(xx, yy) implies #[trigger] self.block(
                        xx,
                        yy,
                    ) == (if yy > y || (yy == y && xx < x + 1) {
                        old_pf.after_throw(line as int, xx, yy)
                    } else {
                        old_pf.block(xx, yy)
                    }) by {
                        assert(prev.inside(xx, yy));
                        if prev.inside(p.0, p.1) {
                            if xx == p.0 && yy == p.1 {
                                prev.grid().law_at_set_same(p, block);
                                assert(self.block(xx, yy) == block);
                            } else {
                                prev.grid().law_at_set_other(p, (xx, yy), block);
                                assert(self.block(xx, yy) == prev.block(xx, yy));
                            }
                        } else {
                            assert(self.grid() == prev.grid());
                            assert(self.block(xx, yy) == prev.block(xx, yy));
                        }
                    }
                }
                x = x + 1;
            }
            if y == 0 {
                break ;
            }
            y = y - 1;
        }
    }

    /// The full lines, from the top.
    pub fn full_lines(&self) -> (r: Vec<u32>)
        requires
            self.wf(),
            self.w() > 0,
        ensures
            r@ == self.full_rows(),
    {
        self.locked_lines()
    }

    /// Takes over the blocks of a playfield of the same size.
    pub fn copy(&mut self, other: &Playfield)
        requires
            old(self).wf(),
            other.wf(),
            old(self).w() == other.w(),
            old(self).h() == other.h(),
        ensures
            final(self).wf(),
            final(self).name_spec() == old(self).name_spec(),
            final(self).grid() == other.grid(),
    {
        if self.height() != other.height() || self.width() != other.width() {
            // can't copy playfield of different sizes
            return;
        }
        proof {
            self.lemma_wf();
            other.lemma_wf();
        }
        self.blocks.clone_from_slice(&other.blocks);
        assert(self.grid().cells =~= other.grid().cells);
    }

    pub fn blocks(&self) -> (r: &Matrix2<Block>)
        ensures
            r@ == self.grid(),
    {
        &self.blocks
    }

    /// Whether a set block of the face, laid with its corner at `point`,
    /// meets a set block of the playfield or lies outside it.
    pub fn test_collision(&self, point: Vec2<i32>, face: &[(u8, u8, u8)]) -> (r: bool)
        requires
            self.wf(),
            face_fits_at(point.pt(), face@),
        ensures
            r == exists|i: int|
                0 <= i < face@.len() && (#[trigger] self.block(
                    point.x + face@[i].0,
                    point.y + face@[i].1,
                )) is Filled,
    {
        let mut i: usize = 0;
        while i < face.len()
            invariant
                self.wf(),
                face_fits_at(point.pt(), face@),
                0 <= i <= face@.len(),
                forall|k: int|
                    0 <= k < i ==> (#[trigger] self.block(point.x + face@[k].0, point.y + face@[k].1))
                        !is Filled,
            decreases face@.len() - i,
        {
            let (x, y, _id) = face[i];
            let x = x as i32 + point.x;
            let y = y as i32 + point.y;
            let block = self.get_block(Vec2 { x, y });
            assert(*block == self.block(point.x + face@[i as int].0, point.y + face@[i as int].1));
            if block.is_set() {
                return true;
            }
            i = i + 1;
        }
        false
    }
}

/// The grid after the face's blocks are laid, one after the other, with
/// its corner at `at`: each as a set block with its id, or, when
/// `clear`, as a clear cell.
pub open spec fn laid(c: Cells<Block>, at: (int, int), face: Seq<(u8, u8, u8)>, clear: bool) -> Cells<Block>
    decreases face.len(),
{
    if face.len() == 0 {
        c
    } else {
        let b = face.last();
        laid(c, at, face.drop_last(), clear).set(
            (at.0 + b.0, at.1 + b.1),
            if clear {
                Block::Clear
            } else {
                Block::Filled(b.2)
            },
        )
    }
}

/// Every block of the face, laid with its corner at `at`, has coordinates
/// within `i32`.
pub open spec fn face_fits_at(at: (int, int), face: Seq<(u8, u8, u8)>) -> bool {
    forall|i: int| 0 <= i < face.len() ==> at.0 + (#[trigger] face[i]).0 <= i32::MAX && at.1 + face[i].1 <= i32::MAX
}

/// Every block of the face, laid with its corner at `at`, falls on an
/// index of the grid.
pub open spec fn face_in(c: Cells<Block>, at: (int, int), face: Seq<(u8, u8, u8)>) -> bool {
    forall|i: int| 0 <= i < face.len() ==> #[trigger] c.index_ok((at.0 + face[i].0, at.1 + face[i].1))
}

impl Playfield {
    pub fn place(&mut self, point: Vec2<i32>, face: &[(u8, u8, u8)])
        requires
            old(self).wf(),
            face_fits_at(point.pt(), face@),
            face_in(old(self).grid(), point.pt(), face@),
        ensures
            final(self).wf(),
            final(self).same_frame(old(self)),
            final(self).grid() == laid(old(self).grid(), point.pt(), face@, false),
    {
        self.lay(point, face, false);
    }

    pub fn remove(&mut self, point: Vec2<i32>, face: &[(u8, u8, u8)])
        requires
            old(self).wf(),
            face_fits_at(point.pt(), face@),
            face_in(old(self).grid(), point.pt(), face@),
        ensures
            final(self).wf(),
            final(self).same_frame(old(self)),
            final(self).grid() == laid(old(self).grid(), point.pt(), face@, true),
    {
        self.lay(point, face, true);
    }

    fn lay(&mut self, point: Vec2<i32>, face: &[(u8, u8, u8)], clear: bool)
        requires
            old(self).wf(),
            face_fits_at(point.pt(), face@),
            face_in(old(self).grid(), point.pt(), face@),
        ensures
            final(self).wf(),
            final(self).same_frame(old(self)),
            final(self).grid() == laid(old(self).grid(), point.pt(), face@, clear),
    {
        let ghost g0 = self.grid();
        let mut i: usize = 0;
        while i < face.len()
            invariant
                self.wf(),
                self.same_frame(old(self)),
                face_fits_at(point.pt(), face@),
                g0 == old(self).grid(),
                face_in(g0, point.pt(), face@),
                0 <= i <= face@.len(),
                self.grid() == laid(g0, point.pt(), face@.subrange(0, i as int), clear),
                self.grid().tl == g0.tl,
                self.grid().br == g0.br,
                self.grid().cells.len() == g0.cells.len(),
            decreases face@.len() - i,
        {
            let (x, y, id) = face[i];
            let x = x as i32 + point.x;
            let y = y as i32 + point.y;
            assert(g0.index_ok((point.x + face@[i as int].0, point.y + face@[i as int].1)));
            let block = if clear {
                Block::Clear
            } else {
                Block::Filled(id)
            };
            self.blocks.set(Vec2 { x, y }, block);
            proof {
                let s1 = face@.subrange(0, i + 1);
                assert(s1.drop_last() =~= face@.subrange(0, i as int));
                assert(s1.last() == face@[i as int]);
            }
            i = i + 1;
        }
        assert(face@.subrange(0, face@.len() as int) =~= face@);
    }
}

/// Some block of the face, laid with its corner at `at`, falls on cell
/// index `i`.
pub open spec fn hit(c: Cells<Block>, at: (int, int), face: Seq<(u8, u8, u8)>, i: int) -> bool {
    exists|j: int| 0 <= j < face.len() && c.index((at.0 + face[j].0, at.1 + face[j].1)) == i
}

/// Laying a face keeps the corners and the cells that no block of the
/// face falls on; clearing leaves every cell that one falls on clear.
proof fn lemma_laid_at(c: Cells<Block>, at: (int, int), face: Seq<(u8, u8, u8)>, clear: bool, i: int)
    requires
        c.wf(),
        face_in(c, at, face),
        0 <= i < c.cells.len(),
    ensures
        laid(c, at, face, clear).tl == c.tl,
        laid(c, at, face, clear).br == c.br,
        laid(c, at, face, clear).cells.len() == c.cells.len(),
        !hit(c, at, face, i) ==> laid(c, at, face, clear).cells[i] == c.cells[i],
        clear && hit(c, at, face, i) ==> laid(c, at, face, clear).cells[i] == Block::Clear,
    decreases face.len(),
{
    if face.len() > 0 {
        let rest = face.drop_last();
        assert(face_in(c, at, rest)) by {
            assert forall|j: int| 0 <= j < rest.len() implies #[trigger] c.index_ok((at.0 + rest[j].0, at.1 + rest[j].1)) by {
                assert(rest[j] == face[j]);
            }
        }
        lemma_laid_at(c, at, rest, clear, i);
        lemma_laid_len(c, at, rest, clear);
        let b = face.last();
        let k = c.index((at.0 + b.0, at.1 + b.1));
        lemma_index_in(c, (at.0 + b.0, at.1 + b.1));
        if !hit(c, at, face, i) {
            assert(!hit(c, at, rest, i)) by {
                if hit(c, at, rest, i) {
                    let j = choose|j: int|
                        0 <= j < rest.len() && c.index((at.0 + rest[j].0, at.1 + rest[j].1)) == i;
                    assert(face[j] == rest[j]);
                }
            }
            assert(k != i) by {
                assert(face[face.len() - 1] == b);
            }
        } else if clear && k != i {
            assert(hit(c, at, rest, i)) by {
                let j = choose|j: int|
                    0 <= j < face.len() && c.index((at.0 + face[j].0, at.1 + face[j].1)) == i;
                assert(j < face.len() - 1);
                assert(rest[j] == face[j]);
            }
        }
    }
}

/// Removing a figure's face right after placing it at the same place
/// gives the same grid as removing it at once.
pub proof fn law_remove_after_place(c: Cells<Block>, at: (int, int), face: Seq<(u8, u8, u8)>)
    requires
        c.wf(),
        face_in(c, at, face),
    ensures
        laid(laid(c, at, face, false), at, face, true) == laid(c, at, face, true),
{
    let placed = laid(c, at, face, false);
    let a = laid(placed, at, face, true);
    let b = laid(c, at, face, true);
    lemma_laid_len(c, at, face, false);
    assert(placed.wf());
    assert(face_in(placed, at, face)) by {
        assert forall|j: int| 0 <= j < face.len() implies #[trigger] placed.index_ok((at.0 + face[j].0, at.1 + face[j].1)) by {
            assert(c.index_ok((at.0 + face[j].0, at.1 + face[j].1)));
        }
    }
    lemma_laid_len(placed, at, face, true);
    lemma_laid_len(c, at, face, true);
    assert forall|i: int| 0 <= i < a.cells.len() implies a.cells[i] == b.cells[i] by {
        lemma_laid_at(c, at, face, false, i);
        lemma_laid_at(placed, at, face, true, i);
        lemma_laid_at(c, at, face, true, i);
        assert(hit(placed, at, face, i) == hit(c, at, face, i));
    }
    assert(a.cells =~= b.cells);
}

/// Removing a figure's face right after placing it gives back the grid,
/// where every cell that the face falls on was clear.
pub proof fn law_remove_undoes_place(c: Cells<Block>, at: (int, int), face: Seq<(u8, u8, u8)>)
    requires
        c.wf(),
        face_in(c, at, face),
        forall|i: int| 0 <= i < c.cells.len() && hit(c, at, face, i) ==> c.cells[i] == Block::Clear,
    ensures
        laid(laid(c, at, face, false), at, face, true) == c,
{
    law_remove_after_place(c, at, face);
    let b = laid(c, at, face, true);
    lemma_laid_len(c, at, face, true);
    assert forall|i: int| 0 <= i < c.cells.len() implies b.cells[i] == c.cells[i] by {
        lemma_laid_at(c, at, face, true, i);
    }
    assert(b.cells =~= c.cells);
}

/// Laying a face keeps the corners and the number of cells.
proof fn lemma_laid_len(c: Cells<Block>, at: (int, int), face: Seq<(u8, u8, u8)>, clear: bool)
    requires
        c.wf(),
        face_in(c, at, face),
    ensures
        laid(c, at, face, clear).tl == c.tl,
        laid(c, at, face, clear).br == c.br,
        laid(c, at, face, clear).cells.len() == c.cells.len(),
    decreases face.len(),
{
    if face.len() > 0 {
        let rest = face.drop_last();
        assert(face_in(c, at, rest)) by {
            assert forall|j: int| 0 <= j < rest.len() implies #[trigger] c.index_ok((at.0 + rest[j].0, at.1 + rest[j].1)) by {
                assert(rest[j] == face[j]);
            }
        }
        lemma_laid_len(c, at, rest, clear);
        let b = face.last();
        assert(c.index_ok((at.0 + face[face.len() - 1].0, at.1 + face[face.len() - 1].1)));
        lemma_index_in(c, (at.0 + b.0, at.1 + b.1));
    }
}

/// A point whose index is fine has an index among the cells.
proof fn lemma_index_in(c: Cells<Block>, p: (int, int))
    requires
        c.wf(),
        c.index_ok(p),
    ensures
        0 <= c.index(p) < c.cells.len(),
{
    let w = c.width();
    assert((p.1 - c.tl.1) * w >= 0) by (nonlinear_arith)
        requires
            p.1 - c.tl.1 >= 0,
            w >= 0,
    ;
}

/// Placing a face whose blocks sit in distinct cells, all inside the grid,
/// leaves each of those cells holding its block's id.
pub proof fn law_place_sets_face(c: Cells<Block>, at: (int, int), face: Seq<(u8, u8, u8)>, j: int)
    requires
        c.wf(),
        cells_distinct(face),
        forall|i: int| 0 <= i < face.len() ==> #[trigger] c.contains((at.0 + face[i].0, at.1 + face[i].1)),
        0 <= j < face.len(),
    ensures
        laid(c, at, face, false).at((at.0 + face[j].0, at.1 + face[j].1)) == Block::Filled(face[j].2),
    decreases face.len(),
{
    let rest = face.drop_last();
    let e = face.last();
    let pe = (at.0 + e.0, at.1 + e.1);
    let pj = (at.0 + face[j].0, at.1 + face[j].1);
    assert(face_in(c, at, rest)) by {
        assert forall|i: int| 0 <= i < rest.len() implies #[trigger] c.index_ok((at.0 + rest[i].0, at.1 + rest[i].1)) by {
            assert(rest[i] == face[i]);
            c.lemma_contains_index((at.0 + face[i].0, at.1 + face[i].1));
        }
    }
    lemma_laid_len(c, at, rest, false);
    let before = laid(c, at, rest, false);
    assert(before.wf());
    assert(c.contains(pe)) by {
        assert(face[face.len() - 1] == e);
    }
    if j == face.len() - 1 {
        before.law_at_set_same(pe, Block::Filled(e.2));
    } else {
        assert(rest[j] == face[j]);
        assert(cells_distinct(rest)) by {
            assert forall|a: int, b: int| 0 <= a < b < rest.len() implies (#[trigger] rest[a]).0 != (
            #[trigger] rest[b]).0 || rest[a].1 != rest[b].1 by {
                assert(rest[a] == face[a] && rest[b] == face[b]);
            }
        }
        assert forall|i: int| 0 <= i < rest.len() implies #[trigger] c.contains((at.0 + rest[i].0, at.1 + rest[i].1)) by {
            assert(rest[i] == face[i]);
        }
        law_place_sets_face(c, at, rest, j);
        assert(pj != pe) by {
            assert(face[j].0 != face[face.len() - 1].0 || face[j].1 != face[face.len() - 1].1);
        }
        assert(c.contains(pj));
        before.law_at_set_other(pe, pj, Block::Filled(e.2));
    }
}

/// Over any run of calls that each keep the frame (every mutating method
/// of the playfield does), the playfield keeps the size and name it had.
pub proof fn law_frame_kept(pfs: Seq<Playfield>)
    requires
        pfs.len() > 0,
        forall|i: int| 0 <= i < pfs.len() - 1 ==> #[trigger] pfs[i + 1].same_frame(&pfs[i]),
    ensures
        forall|i: int| 0 <= i < pfs.len() ==> (#[trigger] pfs[i]).same_frame(&pfs[0]),
    decreases pfs.len(),
{
    if pfs.len() > 1 {
        let init = pfs.drop_last();
        assert forall|i: int| 0 <= i < init.len() - 1 implies #[trigger] init[i + 1].same_frame(&init[i]) by {
            assert(init[i + 1] == pfs[i + 1] && init[i] == pfs[i]);
        }
        law_frame_kept(init);
        assert forall|i: int| 0 <= i < pfs.len() implies (#[trigger] pfs[i]).same_frame(&pfs[0]) by {
            if i < pfs.len() - 1 {
                assert(pfs[i] == init[i]);
            } else {
                let k = i - 1;
                assert(pfs[k + 1].same_frame(&pfs[k]));
                assert(pfs[i - 1] == init[i - 1]);
            }
        }
    }
}

} // verus!
