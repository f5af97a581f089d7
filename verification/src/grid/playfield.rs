use vstd::prelude::*;

use crate::cells::Cells;
use crate::grid::block::{Block, BlockState};
use crate::grid::matrix2::Matrix2;
use crate::grid::position::Position;
use crate::vec2::Vec2;

verus! {

/// The block that every point outside the playfield reads as.
pub open spec fn outside() -> Block {
    Block { id: 0, state: BlockState::Locked }
}

/// The block of a cleared cell.
pub open spec fn cleared() -> Block {
    Block { id: 0, state: BlockState::NotSet }
}

/// Two points are next to each other horizontally or vertically.
pub open spec fn adjacent(p: (int, int), q: (int, int)) -> bool {
    ||| p.0 == q.0 && (p.1 - q.1 == 1 || q.1 - p.1 == 1)
    ||| p.1 == q.1 && (p.0 - q.0 == 1 || q.0 - p.0 == 1)
}

/// `p` comes before `q` row by row from the top, left to right.
pub open spec fn before(p: (int, int), q: (int, int)) -> bool {
    p.1 < q.1 || (p.1 == q.1 && p.0 < q.0)
}

/// The four neighbours of a point.
pub open spec fn nb(q: (int, int), k: int) -> (int, int) {
    if k == 0 {
        (q.0 + 1, q.1)
    } else if k == 1 {
        (q.0, q.1 + 1)
    } else if k == 2 {
        (q.0 - 1, q.1)
    } else {
        (q.0, q.1 - 1)
    }
}

pub proof fn lemma_nb_adjacent(q: (int, int), k: int)
    requires
        0 <= k < 4,
    ensures
        adjacent(q, nb(q, k)),
{
}

pub proof fn lemma_adjacent_is_nb(q: (int, int), t: (int, int))
    requires
        adjacent(q, t),
    ensures
        t == nb(q, 0) || t == nb(q, 1) || t == nb(q, 2) || t == nb(q, 3),
{
}

/// The face cell that lands on playfield point `q` when the face's
/// top-left cell is put at `pos`.
pub open spec fn source(pos: (int, int), q: (int, int)) -> (int, int) {
    (q.0 - pos.0, q.1 - pos.1)
}

/// A set block of the face lands on `q`.
pub open spec fn covers(face: Cells<Block>, pos: (int, int), q: (int, int)) -> bool {
    face.contains(source(pos, q)) && face.at(source(pos, q)).occupied()
}

/// A face that can be laid on the playfield at `pos`: a well-formed grid
/// starting at (0, 0) whose far corner stays inside `i32` from `pos`.
pub open spec fn face_fits(face: &Matrix2<Block>, pos: (int, int)) -> bool {
    &&& face.wf()
    &&& face@.tl == (0int, 0int)
    &&& i32::MIN <= pos.0 && pos.0 + face@.width() <= i32::MAX
    &&& i32::MIN <= pos.1 && pos.1 + face@.height() <= i32::MAX
}

/// Whether a point is marked in a grid of marks.
pub open spec fn seen(v: Cells<bool>, q: (int, int)) -> bool {
    v.at(q)
}

/// The number of unmarked cells of a grid of marks.
pub open spec fn unseen_count(s: Seq<bool>) -> nat
    decreases s.len(),
{
    if s.len() == 0 {
        0
    } else {
        unseen_count(s.drop_last()) + if s.last() {
            0nat
        } else {
            1nat
        }
    }
}

/// Marking an unmarked cell leaves one unmarked cell fewer.
pub proof fn lemma_unseen_count_mark(s: Seq<bool>, i: int)
    requires
        0 <= i < s.len(),
        !s[i],
    ensures
        unseen_count(s.update(i, true)) + 1 == unseen_count(s),
    decreases s.len(),
{
    let t = s.update(i, true);
    if i == s.len() - 1 {
        assert(t.drop_last() =~= s.drop_last());
    } else {
        assert(t.drop_last() =~= s.drop_last().update(i, true));
        lemma_unseen_count_mark(s.drop_last(), i);
    }
}

/// A `u32` read as an `i32` keeps its value up to `i32::MAX` and is
/// negative above it.
pub proof fn lemma_u32_as_i32(v: u32)
    ensures
        v <= i32::MAX ==> v as i32 == v,
        v > i32::MAX ==> (v as i32) < 0,
{
    assert(v <= 0x7fff_ffff ==> v as i32 == v) by (bit_vector);
    assert(v > 0x7fff_ffff ==> (v as i32) < 0) by (bit_vector);
}

/// The playfield: a named grid of blocks whose top-left corner is (0, 0).
#[derive(Debug, Clone)]
pub struct Playfield {
    pf_name: String,
    blocks: Matrix2<Block>,
    outside_block: Block,
}

impl Playfield {
    /// The blocks of the playfield.
    pub closed spec fn grid(&self) -> Cells<Block> {
        self.blocks@
    }

    pub closed spec fn name_spec(&self) -> Seq<char> {
        self.pf_name@
    }

    /// Well-formedness: the grid starts at (0, 0), is rectangular, its
    /// sizes fit an `i32`, and the outside reads as a locked block.
    pub closed spec fn wf(&self) -> bool {
        &&& self.blocks.wf()
        &&& self.blocks@.tl == (0int, 0int)
        &&& self.outside_block == outside()
    }

    pub open spec fn w(&self) -> int {
        self.grid().width()
    }

    pub open spec fn h(&self) -> int {
        self.grid().height()
    }

    pub open spec fn inside(&self, x: int, y: int) -> bool {
        0 <= x < self.w() && 0 <= y < self.h()
    }

    /// The block at a point; every point outside reads as `outside()`.
    pub open spec fn block(&self, x: int, y: int) -> Block {
        if self.inside(x, y) {
            self.grid().at((x, y))
        } else {
            outside()
        }
    }

    pub open spec fn occupied(&self, x: int, y: int) -> bool {
        self.block(x, y).occupied()
    }

    /// Every block of row `y` is set.
    pub open spec fn row_full(&self, y: int) -> bool {
        forall|x: int| 0 <= x < self.w() ==> #[trigger] self.block(x, y).occupied()
    }

    /// The full rows among the first `k` rows, from the top.
    pub open spec fn full_rows_upto(&self, k: int) -> Seq<u32>
        decreases k,
    {
        if k <= 0 {
            Seq::empty()
        } else if self.row_full(k - 1) {
            self.full_rows_upto(k - 1).push((k - 1) as u32)
        } else {
            self.full_rows_upto(k - 1)
        }
    }

    /// The full rows of the playfield, from the top.
    pub open spec fn full_rows(&self) -> Seq<u32> {
        self.full_rows_upto(self.h())
    }

    /// Same sizes, same name.
    pub open spec fn same_frame(&self, other: &Playfield) -> bool {
        &&& self.w() == other.w()
        &&& self.h() == other.h()
        &&& self.name_spec() == other.name_spec()
    }

    /// The sizes of a well-formed playfield fit an `i32`.
    pub proof fn lemma_wf(&self)
        requires
            self.wf(),
        ensures
            self.w() >= 0,
            self.h() >= 0,
            self.grid().wf(),
            self.grid().tl == (0int, 0int),
            self.w() <= i32::MAX,
            self.h() <= i32::MAX,
            self.w() * self.h() <= i32::MAX,
    {
    }

    /// The lines listed as full among the first `k` are exactly the full
    /// lines above row `k`, each once, from the top.
    pub proof fn law_full_rows(&self, k: int)
        requires
            0 <= k <= self.h(),
            self.h() <= i32::MAX,
        ensures
            forall|j: int|
                0 <= j < self.full_rows_upto(k).len() ==> 0 <= #[trigger] self.full_rows_upto(k)[j] < k
                    && self.row_full(self.full_rows_upto(k)[j] as int),
            forall|i: int, j: int|
                0 <= i < j < self.full_rows_upto(k).len() ==> self.full_rows_upto(k)[i]
                    < self.full_rows_upto(k)[j],
            forall|y: int| 0 <= y < k && self.row_full(y) ==> self.full_rows_upto(k).contains(y as u32),
        decreases k,
    {
        if k > 0 {
            self.law_full_rows(k - 1);
            let prev = self.full_rows_upto(k - 1);
            if self.row_full(k - 1) {
                let cur = prev.push((k - 1) as u32);
                assert forall|y: int| 0 <= y < k && self.row_full(y) implies cur.contains(y as u32) by {
                    if y < k - 1 {
                        let j = choose|j: int| 0 <= j < prev.len() && prev[j] == y as u32;
                        assert(cur[j] == y as u32);
                    } else {
                        assert(cur[prev.len() as int] == y as u32);
                    }
                }
            }
        }
    }

    pub fn new(name: &str, width: u32, height: u32) -> (pf: Playfield)
        requires
            width <= i32::MAX,
            height <= i32::MAX,
            width * height <= i32::MAX,
        ensures
            pf.wf(),
            pf.name_spec() == name@,
            pf.w() == width,
            pf.h() == height,
            forall|x: int, y: int| pf.inside(x, y) ==> #[trigger] pf.block(x, y) == cleared(),
    {
        let pf = Playfield {
            pf_name: name.to_string(),
            blocks: Matrix2::from_size(width, height, Block::new_not_set()),
            outside_block: Block::new_locked(0),
        };
        proof {
            assert forall|x: int, y: int| pf.inside(x, y) implies #[trigger] pf.block(x, y) == cleared() by {
                pf.grid().lemma_contains_index((x, y));
            }
        }
        pf
    }

    /// A copy of the playfield.
    pub fn duplicate(&self) -> (r: Playfield)
        ensures
            r.grid() == self.grid(),
            r.name_spec() == self.name_spec(),
            r.wf() == self.wf(),
    {
        Playfield { pf_name: self.pf_name.clone(), blocks: self.blocks.copy(), outside_block: self.outside_block }
    }

    pub fn get_block(&self, pos: Position) -> (r: &Block)
        requires
            self.wf(),
        ensures
            *r == self.block(pos.x as int, pos.y as int),
    {
        let p = pos.to_vec2();
        if !self.blocks.contains(p) {
            &self.outside_block
        } else {
            proof {
                self.grid().lemma_contains_index(p.pt());
            }
            self.blocks.get(p)
        }
    }

    /// Writes a block at a point of the playfield; points outside are left alone.
    pub fn set_block(&mut self, pos: Position, block: Block)
        requires
            old(self).wf(),
        ensures
            final(self).wf(),
            final(self).same_frame(old(self)),
            final(self).grid() == (if old(self).inside(pos.x as int, pos.y as int) {
                old(self).grid().set(pos.pt(), block)
            } else {
                old(self).grid()
            }),
    {
        let p = pos.to_vec2();
        if self.blocks.contains(p) {
            proof {
                self.grid().lemma_contains_index(p.pt());
            }
            self.blocks.set(p, block);
        }
    }

    pub fn width(&self) -> (r: u32)
        requires
            self.wf(),
        ensures
            r == self.w(),
    {
        self.blocks.width()
    }

    pub fn height(&self) -> (r: u32)
        requires
            self.wf(),
        ensures
            r == self.h(),
    {
        self.blocks.height()
    }

    pub fn contains(&self, pos: Position) -> (r: bool)
        requires
            self.wf(),
        ensures
            r == self.inside(pos.x as int, pos.y as int),
    {
        self.blocks.contains(pos.to_vec2())
    }

    pub fn block_is_set(&self, pos: Position) -> (r: bool)
        requires
            self.wf(),
        ensures
            r == self.occupied(pos.x as int, pos.y as int),
    {
        self.get_block(pos).is_set()
    }

    pub fn clear_block(&mut self, pos: Position)
        requires
            old(self).wf(),
        ensures
            final(self).wf(),
            final(self).same_frame(old(self)),
            final(self).grid() == (if old(self).inside(pos.x as int, pos.y as int) {
                old(self).grid().set(pos.pt(), cleared())
            } else {
                old(self).grid()
            }),
    {
        self.set_block(pos, Block::new_not_set());
    }

    /// Whether every block of row `y` is set.
    fn line_is_full(&self, y: i32) -> (r: bool)
        requires
            self.wf(),
            0 <= y < self.h(),
        ensures
            r == self.row_full(y as int),
    {
        let w = self.blocks.width() as i32;
        let mut x: i32 = 0;
        while x < w
            invariant
                self.wf(),
                0 <= y < self.h(),
                w == self.w(),
                0 <= x <= w,
                forall|xx: int| 0 <= xx < x ==> #[trigger] self.block(xx, y as int).occupied(),
            decreases w - x,
        {
            proof {
                self.grid().lemma_contains_index((x as int, y as int));
            }
            if !self.blocks.get(Vec2 { x, y }).is_set() {
                assert(!self.block(x as int, y as int).occupied());
                return false;
            }
            x = x + 1;
        }
        true
    }

    /// The full lines, from the top.
    pub fn locked_lines(&self) -> (r: Vec<u32>)
        requires
            self.wf(),
        ensures
            r@ == self.full_rows(),
    {
        let mut full_lines: Vec<u32> = vec![];
        let h = self.blocks.height() as i32;
        let mut y: i32 = 0;
        while y < h
            invariant
                self.wf(),
                h == self.h(),
                0 <= y <= h,
                full_lines@ == self.full_rows_upto(y as int),
            decreases h - y,
        {
            if self.line_is_full(y) {
                full_lines.push(y as u32);
            }
            y = y + 1;
        }
        full_lines
    }

    /// The number of full lines.
    pub fn count_locked_lines(&self) -> (r: u32)
        requires
            self.wf(),
        ensures
            r == self.full_rows().len(),
    {
        let h = self.blocks.height() as i32;
        let mut count: u32 = 0;
        let mut y: i32 = 0;
        while y < h
            invariant
                self.wf(),
                h == self.h(),
                0 <= y <= h,
                count == self.full_rows_upto(y as int).len(),
                count <= y,
            decreases h - y,
        {
            if self.line_is_full(y) {
                count = count + 1;
            }
            y = y + 1;
        }
        count
    }

    /// Fills every listed line with the block.
    pub fn set_lines(&mut self, lines: &[u32], block: &Block)
        requires
            old(self).wf(),
        ensures
            final(self).wf(),
            final(self).same_frame(old(self)),
            forall|x: int, y: int|
                final(self).inside(x, y) ==> #[trigger] final(self).block(x, y) == (if lines@.contains(
                    y as u32,
                ) {
                    *block
                } else {
                    old(self).block(x, y)
                }),
    {
        let ghost old_pf = *self;
        let mut i: usize = 0;
        while i < lines.len()
            invariant
                self.wf(),
                self.same_frame(&old_pf),
                old_pf.wf(),
                0 <= i <= lines@.len(),
                forall|x: int, y: int|
                    self.inside(x, y) ==> #[trigger] self.block(x, y) == (if lines@.subrange(
                        0,
                        i as int,
                    ).contains(y as u32) {
                        *block
                    } else {
                        old_pf.block(x, y)
                    }),
            decreases lines@.len() - i,
        {
            let line = lines[i];
            let ghost before = *self;
            let w = self.blocks.width();
            let mut x: u32 = 0;
            while x < w
                invariant
                    self.wf(),
                    self.same_frame(&before),
                    before.wf(),
                    w == before.w(),
                    0 <= x <= w,
                    forall|xx: int, yy: int|
                        self.inside(xx, yy) ==> #[trigger] self.block(xx, yy) == (if yy == line as i32
                            && xx < x {
                            *block
                        } else {
                            before.block(xx, yy)
                        }),
                decreases w - x,
            {
                let ghost prev = *self;
                self.set_block(Position { x: x as i32, y: line as i32 }, *block);
                proof {
                    lemma_u32_as_i32(line);
                    let p = (x as int, line as i32 as int);
                    assert(prev.inside(p.0, p.1) ==> self.grid() == prev.grid().set(p, *block));
                    assert forall|xx: int, yy: int| self.inside(xx, yy) implies #[trigger] self.block(xx, yy) == (
                    if yy == line as i32 && xx < x + 1 {
                        *block
                    } else {
                        before.block(xx, yy)
                    }) by {
                        assert(prev.inside(xx, yy));
                        if prev.inside(p.0, p.1) {
                            if xx == p.0 && yy == p.1 {
                                prev.grid().law_at_set_same(p, *block);
                                assert(self.block(xx, yy) == *block);
                            } else {
                                prev.grid().law_at_set_other(p, (xx, yy), *block);
                                assert(self.block(xx, yy) == prev.block(xx, yy));
                            }
                        } else {
                            assert(self.grid() == prev.grid());
                            assert(self.block(xx, yy) == prev.block(xx, yy));
                        }
                    }
                }
                x = x + 1;
            }
            proof {
                assert forall|xx: int, yy: int| self.inside(xx, yy) implies #[trigger] self.block(xx, yy) == (
                if lines@.subrange(0, i + 1).contains(yy as u32) {
                    *block
                } else {
                    old_pf.block(xx, yy)
                }) by {
                    lemma_u32_as_i32(line);
                    let s0 = lines@.subrange(0, i as int);
                    let s1 = lines@.subrange(0, i + 1);
                    assert(s1 == s0.push(line));
                    assert(0 <= yy < i32::MAX);
                    if yy == line as i32 {
                        assert(line as int == yy);
                        assert(s1[i as int] == yy as u32);
                    } else {
                        if s1.contains(yy as u32) {
                            let k = choose|k: int| 0 <= k < s1.len() && s1[k] == yy as u32;
                            if k < i {
                                assert(s0[k] == yy as u32);
                            } else {
                                assert(line == yy as u32);
                            }
                        }
                        if s0.contains(yy as u32) {
                            let k = choose|k: int| 0 <= k < s0.len() && s0[k] == yy as u32;
                            assert(s1[k] == yy as u32);
                        }
                    }
                }
            }
            i = i + 1;
        }
        proof {
            assert(lines@.subrange(0, lines@.len() as int) == lines@);
        }
    }

    /// The block that row `line` being thrown away leaves at a point: rows
    /// below `line` keep theirs, rows up to `line` take the one above, and
    /// the top row is cleared.
    pub open spec fn after_throw(&self, line: int, x: int, y: int) -> Block {
        if y > line {
            self.block(x, y)
        } else if y >= 1 {
            self.block(x, y - 1)
        } else {
            cleared()
        }
    }

    //
    // Remove a line from playfield and move all lines above downwards
    //
    pub fn throw_line(&mut self, line: u32)
        requires
            old(self).wf(),
            line <= i32::MAX,
        ensures
            final(self).wf(),
            final(self).same_frame(old(self)),
            forall|x: int, y: int|
                final(self).inside(x, y) ==> #[trigger] final(self).block(x, y) == old(
                    self,
                ).after_throw(line as int, x, y),
    {
        let ghost old_pf = *self;
        let w = self.blocks.width() as i32;
        let mut y: i32 = line as i32;
        loop
            invariant_except_break
                0 <= y <= line,
                forall|xx: int, yy: int|
                    self.inside(xx, yy) ==> #[trigger] self.block(xx, yy) == (if yy > y {
                        old_pf.after_throw(line as int, xx, yy)
                    } else {
                        old_pf.block(xx, yy)
                    }),
            invariant
                self.wf(),
                old_pf.wf(),
                self.same_frame(&old_pf),
                w == old_pf.w(),
            ensures
                forall|xx: int, yy: int|
                    self.inside(xx, yy) ==> #[trigger] self.block(xx, yy) == old_pf.after_throw(
                        line as int,
                        xx,
                        yy,
                    ),
            decreases y,
        {
            let mut x: i32 = 0;
            while x < w
                invariant
                    self.wf(),
                    old_pf.wf(),
                    self.same_frame(&old_pf),
                    w == old_pf.w(),
                    0 <= y <= line,
                    0 <= x <= w,
                    forall|xx: int, yy: int|
                        self.inside(xx, yy) ==> #[trigger] self.block(xx, yy) == (if yy > y || (yy
                            == y && xx < x) {
                            old_pf.after_throw(line as int, xx, yy)
                        } else {
                            old_pf.block(xx, yy)
                        }),
                decreases w - x,
            {
                let ghost prev = *self;
                let block = if y >= 1 {
                    *self.get_block(Position { x: x, y: y - 1 })
                } else {
                    Block::new_not_set()
                };
                assert(block == old_pf.after_throw(line as int, x as int, y as int));
                self.set_block(Position { x: x, y: y }, block);
                proof {
                    let p = (x as int, y as int);
                    assert forall|xx: int, yy: int| self.inside(xx, yy) implies #[trigger] self.block(
                        xx,
                        yy,
                    ) == (if yy > y || (yy == y && xx < x + 1) {
                        old_pf.after_throw(line as int, xx, yy)
                    } else {
                        old_pf.block(xx, yy)
                    }) by {
                        assert(prev.inside(xx, yy));
                        if prev.inside(p.0, p.1) {
                            if xx == p.0 && yy == p.1 {
                                prev.grid().law_at_set_same(p, block);
                                assert(self.block(xx, yy) == block);
                            } else {
                                prev.grid().law_at_set_other(p, (xx, yy), block);
                                assert(self.block(xx, yy) == prev.block(xx, yy));
                            }
                        } else {
                            assert(self.grid() == prev.grid());
                            assert(self.block(xx, yy) == prev.block(xx, yy));
                        }
                    }
                }
                x = x + 1;
            }
            if y == 0 {
                break ;
            }
            y = y - 1;
        }
    }

    /// An empty cell of the playfield.
    pub open spec fn open_cell(&self, p: (int, int)) -> bool {
        self.inside(p.0, p.1) && !self.occupied(p.0, p.1)
    }

    /// A walk through empty cells, each next to the one before.
    pub open spec fn is_path(&self, s: Seq<(int, int)>) -> bool {
        &&& s.len() >= 1
        &&& forall|i: int| 0 <= i < s.len() ==> self.open_cell(#[trigger] s[i])
        &&& forall|i: int, j: int|
            0 <= i && j == i + 1 && j < s.len() ==> adjacent(#[trigger] s[i], #[trigger] s[j])
    }

    /// A walk through empty cells leads from `p` to `q`.
    pub open spec fn connected(&self, p: (int, int), q: (int, int)) -> bool {
        exists|s: Seq<(int, int)>| #[trigger] self.is_path(s) && s[0] == p && s[s.len() - 1] == q
    }

    /// `p` is the first empty cell, row by row, of the void it lies in.
    pub open spec fn first_of_void(&self, p: (int, int)) -> bool {
        &&& self.open_cell(p)
        &&& forall|q: (int, int)| #[trigger] self.connected(q, p) ==> !before(q, p)
    }

    /// The voids whose first cell lies in row `y` left of column `x`.
    pub open spec fn voids_in_row(&self, y: int, x: int) -> int
        decreases x,
    {
        if x <= 0 {
            0
        } else {
            self.voids_in_row(y, x - 1) + if self.first_of_void((x - 1, y)) {
                1int
            } else {
                0int
            }
        }
    }

    /// The voids whose first cell lies in the first `y` rows.
    pub open spec fn voids_upto(&self, y: int) -> int
        decreases y,
    {
        if y <= 0 {
            0
        } else {
            self.voids_upto(y - 1) + self.voids_in_row(y - 1, self.w())
        }
    }

    /// The number of voids: regions of empty cells connected horizontally
    /// and vertically.
    pub open spec fn void_count(&self) -> int {
        self.voids_upto(self.h())
    }

    pub proof fn lemma_connected_refl(&self, p: (int, int))
        requires
            self.open_cell(p),
        ensures
            self.connected(p, p),
    {
        let s = seq![p];
        assert(self.is_path(s));
    }

    pub proof fn lemma_connected_step(&self, p: (int, int), q: (int, int), t: (int, int))
        requires
            self.connected(p, q),
            adjacent(q, t),
            self.open_cell(t),
        ensures
            self.connected(p, t),
    {
        let s = choose|s: Seq<(int, int)>| #[trigger] self.is_path(s) && s[0] == p && s[s.len() - 1] == q;
        let s2 = s.push(t);
        assert forall|i: int| 0 <= i < s2.len() implies self.open_cell(#[trigger] s2[i]) by {
            if i < s.len() {
                assert(s2[i] == s[i]);
            }
        }
        assert forall|i: int, j: int|
            0 <= i && j == i + 1 && j < s2.len() implies adjacent(#[trigger] s2[i], #[trigger] s2[j]) by {
            if j < s.len() {
                assert(s2[i] == s[i] && s2[j] == s[j]);
                assert(adjacent(s[i], s[j]));
            }
        }
        assert(self.is_path(s2));
    }

    pub proof fn lemma_connected_trans(&self, p: (int, int), q: (int, int), t: (int, int))
        requires
            self.connected(p, q),
            self.connected(q, t),
        ensures
            self.connected(p, t),
    {
        let s = choose|s: Seq<(int, int)>| #[trigger] self.is_path(s) && s[0] == q && s[s.len() - 1] == t;
        assert forall|k: int| 0 <= k < s.len() implies self.connected(p, #[trigger] s[k]) by {
            self.lemma_path_prefix(p, s, k);
        }
    }

    proof fn lemma_path_prefix(&self, p: (int, int), s: Seq<(int, int)>, k: int)
        requires
            self.is_path(s),
            self.connected(p, s[0]),
            0 <= k < s.len(),
        ensures
            self.connected(p, s[k]),
        decreases k,
    {
        if k > 0 {
            self.lemma_path_prefix(p, s, k - 1);
            assert(adjacent(s[k - 1], s[k]));
            self.lemma_connected_step(p, s[k - 1], s[k]);
        }
    }

    /// A connected cell lies in a path's cells.
    proof fn lemma_connected_open(&self, p: (int, int), q: (int, int))
        requires
            self.connected(p, q),
        ensures
            self.open_cell(p),
            self.open_cell(q),
    {
        let s = choose|s: Seq<(int, int)>| #[trigger] self.is_path(s) && s[0] == p && s[s.len() - 1] == q;
        assert(self.open_cell(s[0]));
        assert(self.open_cell(s[s.len() - 1]));
    }

    /// A grid of marks laid over the playfield.
    spec fn frame_ok(&self, v: Cells<bool>) -> bool {
        &&& v.wf()
        &&& v.tl == (0int, 0int)
        &&& v.br == self.grid().br
    }

    /// Only empty cells are marked.
    spec fn seen_open(&self, v: Cells<bool>) -> bool {
        forall|q: (int, int)| self.inside(q.0, q.1) && #[trigger] seen(v, q) ==> self.open_cell(q)
    }

    /// Every empty neighbour of `q` is marked.
    spec fn closed_at(&self, v: Cells<bool>, q: (int, int)) -> bool {
        forall|k: int| 0 <= k < 4 && self.open_cell(nb(q, k)) ==> seen(v, #[trigger] nb(q, k))
    }

    /// Every marked cell has its empty neighbours marked.
    spec fn all_closed(&self, v: Cells<bool>) -> bool {
        forall|q: (int, int)| self.inside(q.0, q.1) && #[trigger] seen(v, q) ==> self.closed_at(v, q)
    }

    /// Every marked cell is marked in `v2` too.
    spec fn grows(&self, v: Cells<bool>, v2: Cells<bool>) -> bool {
        forall|q: (int, int)| self.inside(q.0, q.1) && #[trigger] seen(v, q) ==> seen(v2, q)
    }

    /// Marks spread from a marked cell along every walk.
    proof fn lemma_closed_reaches(&self, v: Cells<bool>, p: (int, int), q: (int, int))
        requires
            self.wf(),
            self.frame_ok(v),
            seen(v, p),
            self.all_closed(v),
            self.connected(p, q),
        ensures
            seen(v, q),
    {
        let s = choose|s: Seq<(int, int)>| #[trigger] self.is_path(s) && s[0] == p && s[s.len() - 1] == q;
        self.lemma_closed_path(v, s, s.len() - 1);
    }

    proof fn lemma_closed_path(&self, v: Cells<bool>, s: Seq<(int, int)>, k: int)
        requires
            self.wf(),
            self.frame_ok(v),
            self.is_path(s),
            seen(v, s[0]),
            self.all_closed(v),
            0 <= k < s.len(),
        ensures
            seen(v, s[k]),
        decreases k,
    {
        if k > 0 {
            self.lemma_closed_path(v, s, k - 1);
            let q = s[k - 1];
            let t = s[k];
            assert(adjacent(q, t));
            assert(self.open_cell(q));
            assert(self.open_cell(t));
            assert(self.closed_at(v, q));
            lemma_adjacent_is_nb(q, t);
            if t == nb(q, 0) {
                assert(seen(v, nb(q, 0)));
            } else if t == nb(q, 1) {
                assert(seen(v, nb(q, 1)));
            } else if t == nb(q, 2) {
                assert(seen(v, nb(q, 2)));
            } else {
                assert(seen(v, nb(q, 3)));
            }
        }
    }

    /// Marking a cell keeps every mark.
    proof fn lemma_mark_grows(&self, v: Cells<bool>, t: (int, int))
        requires
            self.wf(),
            self.frame_ok(v),
            self.inside(t.0, t.1),
        ensures
            self.frame_ok(v.set(t, true)),
            self.grows(v, v.set(t, true)),
            seen(v.set(t, true), t),
            forall|q: (int, int)|
                self.inside(q.0, q.1) && #[trigger] seen(v.set(t, true), q) ==> seen(v, q) || q == t,
    {
        v.law_at_set_same(t, true);
        assert forall|q: (int, int)| self.inside(q.0, q.1) && #[trigger] seen(v, q) implies seen(
            v.set(t, true),
            q,
        ) by {
            if q != t {
                v.law_at_set_other(t, q, true);
            }
        }
        assert forall|q: (int, int)| self.inside(q.0, q.1) && #[trigger] seen(v.set(t, true), q) implies seen(
            v,
            q,
        ) || q == t by {
            if q != t {
                v.law_at_set_other(t, q, true);
            }
        }
    }

    /// Marks the neighbour `t` and puts it on the stack when it is an
    /// empty cell of the playfield that is not marked yet.
    fn visit_neighbour(&self, visited: &mut Matrix2<bool>, fill: &mut Vec<Position>, t: Position)
        requires
            self.wf(),
            old(visited).wf(),
            self.frame_ok(old(visited)@),
        ensures
            final(visited).wf(),
            ({
                let fresh = self.open_cell(t.pt()) && !seen(old(visited)@, t.pt());
                &&& final(visited)@ == (if fresh {
                    old(visited)@.set(t.pt(), true)
                } else {
                    old(visited)@
                })
                &&& final(fill)@ == (if fresh {
                    old(fill)@.push(t)
                } else {
                    old(fill)@
                })
            }),
    {
        proof {
            self.lemma_wf();
        }
        let p = t.to_vec2();
        if self.blocks.contains(p) {
            proof {
                visited@.lemma_contains_index(p.pt());
            }
            if !*visited.get(p) && !self.block_is_set(t) {
                visited.set(p, true);
                fill.push(t);
            }
        }
    }

    /// Marks the void that `start` lies in.
    fn fill_void(&self, visited: &mut Matrix2<bool>, start: Position)
        requires
            self.wf(),
            old(visited).wf(),
            self.frame_ok(old(visited)@),
            self.open_cell(start.pt()),
            seen(old(visited)@, start.pt()),
            self.seen_open(old(visited)@),
            forall|q: (int, int)|
                self.inside(q.0, q.1) && #[trigger] seen(old(visited)@, q) && q != start.pt()
                    ==> self.closed_at(old(visited)@, q),
        ensures
            final(visited).wf(),
            self.frame_ok(final(visited)@),
            self.grows(old(visited)@, final(visited)@),
            forall|q: (int, int)|
                self.inside(q.0, q.1) && #[trigger] seen(final(visited)@, q) ==> seen(old(visited)@, q)
                    || self.connected(start.pt(), q),
            self.seen_open(final(visited)@),
            self.all_closed(final(visited)@),
    {
        let ghost v0 = visited@;
        let mut fill: Vec<Position> = Vec::new();
        fill.push(start);
        proof {
            self.lemma_connected_refl(start.pt());
            assert(fill@[0] == start);
            assert forall|q: (int, int)|
                self.inside(q.0, q.1) && #[trigger] seen(visited@, q) implies self.closed_at(
                visited@,
                q,
            ) || exists|i: int| 0 <= i < fill@.len() && fill@[i].pt() == q by {
                if q == start.pt() {
                    assert(fill@[0].pt() == q);
                }
            }
        }
        while !fill.is_empty()
            invariant
                self.wf(),
                visited.wf(),
                self.frame_ok(visited@),
                self.frame_ok(v0),
                self.grows(v0, visited@),
                forall|q: (int, int)|
                    self.inside(q.0, q.1) && #[trigger] seen(visited@, q) ==> seen(v0, q)
                        || self.connected(start.pt(), q),
                self.seen_open(visited@),
                forall|i: int| #![trigger fill@[i]] 0 <= i < fill@.len() ==> self.open_cell(fill@[i].pt()) && self.connected(start.pt(), fill@[i].pt()),
                forall|q: (int, int)|
                    self.inside(q.0, q.1) && #[trigger] seen(visited@, q) ==> self.closed_at(
                        visited@,
                        q,
                    ) || exists|i: int| 0 <= i < fill@.len() && fill@[i].pt() == q,
            decreases unseen_count(visited@.cells) + fill@.len(),
        {
            let ghost v_before = visited@;
            let ghost st_before = fill@;
            let pos = fill.pop().unwrap();
            assert(st_before[st_before.len() - 1] == pos);
            assert(self.open_cell(pos.pt()));
            assert(self.connected(start.pt(), pos.pt()));
            proof {
                self.lemma_wf();
                assert(fill@ =~= st_before.drop_last());
                assert forall|i: int| #![trigger fill@[i]] 0 <= i < fill@.len() implies self.open_cell(fill@[i].pt()) && self.connected(start.pt(), fill@[i].pt()) by {
                    assert(fill@[i] == st_before[i]);
                }
                assert forall|q: (int, int)|
                    self.inside(q.0, q.1) && #[trigger] seen(visited@, q) && q != pos.pt()
                        implies self.closed_at(visited@, q) || exists|i: int|
                        0 <= i < fill@.len() && fill@[i].pt() == q by {
                    if !self.closed_at(visited@, q) {
                        let i = choose|i: int| 0 <= i < st_before.len() && st_before[i].pt() == q;
                        assert(i < st_before.len() - 1);
                        assert(fill@[i] == st_before[i]);
                    }
                }
            }
            let cands = [
                Position { x: pos.x + 1, y: pos.y },
                Position { x: pos.x, y: pos.y + 1 },
                Position { x: pos.x - 1, y: pos.y },
                Position { x: pos.x, y: pos.y - 1 },
            ];
            let mut k: usize = 0;
            while k < 4
                invariant
                    self.wf(),
                    visited.wf(),
                    self.frame_ok(visited@),
                    self.frame_ok(v0),
                    0 <= k <= 4,
                    self.open_cell(pos.pt()),
                    self.connected(start.pt(), pos.pt()),
                    forall|j: int| 0 <= j < 4 ==> (#[trigger] cands[j]).pt() == nb(pos.pt(), j),
                    self.grows(v0, visited@),
                    self.grows(v_before, visited@),
                    forall|q: (int, int)|
                        self.inside(q.0, q.1) && #[trigger] seen(visited@, q) ==> seen(v0, q)
                            || self.connected(start.pt(), q),
                    self.seen_open(visited@),
                    forall|i: int| #![trigger fill@[i]] 0 <= i < fill@.len() ==> self.open_cell(fill@[i].pt()) && self.connected(start.pt(), fill@[i].pt()),
                    forall|q: (int, int)|
                        self.inside(q.0, q.1) && #[trigger] seen(visited@, q) && q != pos.pt()
                            ==> self.closed_at(visited@, q) || exists|i: int|
                            0 <= i < fill@.len() && fill@[i].pt() == q,
                    forall|j: int|
                        0 <= j < k && self.open_cell(nb(pos.pt(), j)) ==> seen(
                            visited@,
                            #[trigger] nb(pos.pt(), j),
                        ),
                    unseen_count(visited@.cells) + fill@.len() <= unseen_count(v_before.cells) + st_before.len() - 1,
                decreases 4 - k,
            {
                let t = cands[k];
                let ghost vb = visited@;
                let ghost fb = fill@;
                self.visit_neighbour(visited, &mut fill, t);
                proof {
                    let tp = t.pt();
                    if self.open_cell(tp) && !seen(vb, tp) {
                        self.lemma_mark_grows(vb, tp);
                        vb.lemma_contains_index(tp);
                        lemma_unseen_count_mark(vb.cells, vb.index(tp));
                        lemma_nb_adjacent(pos.pt(), k as int);
                        self.lemma_connected_step(start.pt(), pos.pt(), tp);
                        assert(fill@[fill@.len() - 1] == t);
                        assert forall|q: (int, int)|
                            self.inside(q.0, q.1) && #[trigger] seen(visited@, q) && q != pos.pt()
                                implies self.closed_at(visited@, q) || exists|i: int|
                                0 <= i < fill@.len() && fill@[i].pt() == q by {
                            if q == tp {
                                assert(fill@[fill@.len() - 1].pt() == q);
                            } else {
                                assert(seen(vb, q));
                                if !self.closed_at(vb, q) {
                                    let i = choose|i: int| 0 <= i < fb.len() && fb[i].pt() == q;
                                    assert(fill@[i] == fb[i]);
                                } else {
                                    assert forall|kk: int|
                                        0 <= kk < 4 && self.open_cell(nb(q, kk)) implies seen(
                                        visited@,
                                        #[trigger] nb(q, kk),
                                    ) by {
                                        assert(seen(vb, nb(q, kk)));
                                    }
                                }
                            }
                        }
                        assert forall|i: int| #![trigger fill@[i]] 0 <= i < fill@.len() implies self.open_cell(fill@[i].pt()) && self.connected(start.pt(), fill@[i].pt()) by {
                            if i < fb.len() {
                                assert(fill@[i] == fb[i]);
                            }
                        }
                        assert forall|j: int|
                            0 <= j < k + 1 && self.open_cell(nb(pos.pt(), j)) implies seen(
                            visited@,
                            #[trigger] nb(pos.pt(), j),
                        ) by {
                            if j == k {
                                assert(nb(pos.pt(), j) == tp);
                            } else {
                                assert(seen(vb, nb(pos.pt(), j)));
                            }
                        }
                    } else {
                        assert forall|j: int|
                            0 <= j < k + 1 && self.open_cell(nb(pos.pt(), j)) implies seen(
                            visited@,
                            #[trigger] nb(pos.pt(), j),
                        ) by {
                            if j == k {
                                assert(nb(pos.pt(), j) == tp);
                            }
                        }
                    }
                }
                k = k + 1;
            }
            proof {
                assert(self.closed_at(visited@, pos.pt()));
                assert forall|q: (int, int)|
                    self.inside(q.0, q.1) && #[trigger] seen(visited@, q) implies self.closed_at(
                    visited@,
                    q,
                ) || exists|i: int| 0 <= i < fill@.len() && fill@[i].pt() == q by {
                    if q != pos.pt() {
                    }
                }
            }
        }
        proof {
            assert forall|q: (int, int)|
                self.inside(q.0, q.1) && #[trigger] seen(visited@, q) implies self.closed_at(
                visited@,
                q,
            ) by {
                if !self.closed_at(visited@, q) {
                    let i = choose|i: int| 0 <= i < fill@.len() && fill@[i].pt() == q;
                }
            }
        }
    }

    proof fn lemma_closed_grows(&self, v: Cells<bool>, v2: Cells<bool>, q: (int, int))
        requires
            self.closed_at(v, q),
            self.grows(v, v2),
        ensures
            self.closed_at(v2, q),
    {
        assert forall|k: int| 0 <= k < 4 && self.open_cell(nb(q, k)) implies seen(
            v2,
            #[trigger] nb(q, k),
        ) by {
            assert(seen(v, nb(q, k)));
        }
    }

    /// The number of voids: regions of empty cells that are connected
    /// horizontally and vertically.
    pub fn count_voids(&self) -> (r: u32)
        requires
            self.wf(),
        ensures
            r == self.void_count(),
    {
        proof {
            self.lemma_wf();
        }
        let mut voids: u32 = 0;
        let w = self.blocks.width();
        let h = self.blocks.height();
        let mut visited: Matrix2<bool> = Matrix2::from_size(w, h, false);
        proof {
            assert forall|q: (int, int)| self.inside(q.0, q.1) implies !#[trigger] seen(visited@, q) by {
                visited@.lemma_contains_index(q);
            }
        }
        let mut y: i32 = 0;
        while y < h as i32
            invariant
                self.wf(),
                visited.wf(),
                self.frame_ok(visited@),
                w == self.w(),
                h == self.h(),
                w * h <= i32::MAX,
                0 <= y <= h,
                self.seen_open(visited@),
                self.all_closed(visited@),
                forall|q: (int, int)|
                    self.inside(q.0, q.1) && #[trigger] seen(visited@, q) ==> exists|p: (int, int)|
                        #[trigger] self.connected(p, q) && self.open_cell(p) && before(p, (0, y as int)),
                forall|p: (int, int), q: (int, int)|
                    #[trigger] self.connected(p, q) && self.open_cell(p) && before(p, (0, y as int))
                        ==> seen(visited@, q),
                voids == self.voids_upto(y as int),
                voids <= y * w,
            decreases h - y,
        {
            let mut x: i32 = 0;
            while x < w as i32
                invariant
                    self.wf(),
                    visited.wf(),
                    self.frame_ok(visited@),
                    w == self.w(),
                    h == self.h(),
                    w * h <= i32::MAX,
                    0 <= y < h,
                    0 <= x <= w,
                    self.seen_open(visited@),
                    self.all_closed(visited@),
                    forall|q: (int, int)|
                        self.inside(q.0, q.1) && #[trigger] seen(visited@, q) ==> exists|p: (int, int)|
                            #[trigger] self.connected(p, q) && self.open_cell(p) && before(
                                p,
                                (x as int, y as int),
                            ),
                    forall|p: (int, int), q: (int, int)|
                        #[trigger] self.connected(p, q) && self.open_cell(p) && before(
                            p,
                            (x as int, y as int),
                        ) ==> seen(visited@, q),
                    voids == self.voids_upto(y as int) + self.voids_in_row(y as int, x as int),
                    voids <= y * w + x,
                decreases w - x,
            {
                let ghost v0 = visited@;
                let ghost c = (x as int, y as int);
                proof {
                    self.grid().lemma_contains_index(c);
                    visited@.lemma_contains_index(c);
                }
                let pos = Position::new(x, y);
                if !self.block_is_set(pos) && !*visited.get(pos.to_vec2()) {
                    proof {
                        assert(self.open_cell(c));
                        assert forall|q: (int, int)| #[trigger] self.connected(q, c) implies !before(q, c) by {
                            if before(q, c) {
                                self.lemma_connected_open(q, c);
                            }
                        }
                        assert(self.first_of_void(c));
                    }
                    voids = voids + 1;
                    visited.set(pos.to_vec2(), true);
                    let ghost v1 = visited@;
                    proof {
                        self.lemma_mark_grows(v0, c);
                        assert forall|q: (int, int)|
                            self.inside(q.0, q.1) && #[trigger] seen(v1, q) && q != c implies self.closed_at(
                            v1,
                            q,
                        ) by {
                            assert(seen(v0, q));
                            self.lemma_closed_grows(v0, v1, q);
                        }
                    }
                    self.fill_void(&mut visited, pos);
                    proof {
                        let v2 = visited@;
                        self.lemma_connected_refl(c);
                        assert forall|q: (int, int)|
                            self.inside(q.0, q.1) && #[trigger] seen(v2, q) implies exists|p: (int, int)|
                            #[trigger] self.connected(p, q) && self.open_cell(p) && before(
                                p,
                                (x + 1, y as int),
                            ) by {
                            if seen(v1, q) && q != c {
                                assert(seen(v0, q));
                                let p = choose|p: (int, int)|
                                    #[trigger] self.connected(p, q) && self.open_cell(p) && before(
                                        p,
                                        c,
                                    );
                                assert(before(p, (x + 1, y as int)));
                            } else {
                                if q == c {
                                    assert(self.connected(c, q));
                                }
                                assert(self.connected(c, q));
                            }
                        }
                        assert forall|p: (int, int), q: (int, int)|
                            #[trigger] self.connected(p, q) && self.open_cell(p) && before(
                                p,
                                (x + 1, y as int),
                            ) implies seen(v2, q) by {
                            self.lemma_connected_open(p, q);
                            if p == c {
                                self.lemma_closed_reaches(v2, c, q);
                            } else {
                                assert(before(p, c));
                                assert(seen(v0, q));
                                assert(seen(v1, q));
                            }
                        }
                    }
                } else {
                    proof {
                        if self.open_cell(c) {
                            assert(seen(v0, c));
                            let p = choose|p: (int, int)|
                                #[trigger] self.connected(p, c) && self.open_cell(p) && before(p, c);
                            assert(!self.first_of_void(c));
                            assert forall|pp: (int, int), q: (int, int)|
                                #[trigger] self.connected(pp, q) && self.open_cell(pp) && before(
                                    pp,
                                    (x + 1, y as int),
                                ) implies seen(visited@, q) by {
                                if pp == c {
                                    self.lemma_connected_trans(p, c, q);
                                }
                            }
                        } else {
                            assert(!self.first_of_void(c));
                        }
                        assert forall|q: (int, int)|
                            self.inside(q.0, q.1) && #[trigger] seen(visited@, q) implies exists|
                            p: (int, int),
                        | #[trigger] self.connected(p, q) && self.open_cell(p) && before(
                            p,
                            (x + 1, y as int),
                        ) by {
                            let p = choose|p: (int, int)|
                                #[trigger] self.connected(p, q) && self.open_cell(p) && before(p, c);
                            assert(before(p, (x + 1, y as int)));
                        }
                    }
                }
                x = x + 1;
            }
            proof {
                assert forall|q: (int, int)|
                    self.inside(q.0, q.1) && #[trigger] seen(visited@, q) implies exists|p: (int, int)|
                    #[trigger] self.connected(p, q) && self.open_cell(p) && before(p, (0, y + 1)) by {
                    let p = choose|p: (int, int)|
                        #[trigger] self.connected(p, q) && self.open_cell(p) && before(p, (w as int, y as int));
                    assert(before(p, (0, y + 1)));
                }
                assert forall|p: (int, int), q: (int, int)|
                    #[trigger] self.connected(p, q) && self.open_cell(p) && before(p, (0, y + 1))
                        implies seen(visited@, q) by {
                    assert(before(p, (w as int, y as int)));
                }
                assert((y + 1) * w == y * w + w) by (nonlinear_arith);
            }
            y = y + 1;
        }
        voids
    }

    /// A set block of the face lands on a set block of the playfield or
    /// outside it.
    pub open spec fn collides(&self, face: Cells<Block>, pos: (int, int)) -> bool {
        exists|f: (int, int)| #[trigger] self.hits(face, pos, f)
    }

    /// The set block at face cell `f` lands on a set block or outside.
    pub open spec fn hits(&self, face: Cells<Block>, pos: (int, int), f: (int, int)) -> bool {
        face.contains(f) && face.at(f).occupied() && self.occupied(pos.0 + f.0, pos.1 + f.1)
    }

    /// Writes the set blocks of a face into the playfield with the face's
    /// top-left cell at `pos`; what lands outside is dropped.
    pub fn place(&mut self, pos: Position, face: &Matrix2<Block>)
        requires
            old(self).wf(),
            face_fits(face, pos.pt()),
        ensures
            final(self).wf(),
            final(self).same_frame(old(self)),
            forall|x: int, y: int|
                final(self).inside(x, y) ==> #[trigger] final(self).block(x, y) == (if covers(
                    face@,
                    pos.pt(),
                    (x, y),
                ) {
                    face@.at(source(pos.pt(), (x, y)))
                } else {
                    old(self).block(x, y)
                }),
    {
        self.lay_face(pos, face, false);
    }

    /// Clears the cells that the set blocks of a face cover with the face's
    /// top-left cell at `pos`.
    pub fn remove(&mut self, pos: Position, face: &Matrix2<Block>)
        requires
            old(self).wf(),
            face_fits(face, pos.pt()),
        ensures
            final(self).wf(),
            final(self).same_frame(old(self)),
            forall|x: int, y: int|
                final(self).inside(x, y) ==> #[trigger] final(self).block(x, y) == (if covers(
                    face@,
                    pos.pt(),
                    (x, y),
                ) {
                    cleared()
                } else {
                    old(self).block(x, y)
                }),
    {
        self.lay_face(pos, face, true);
    }

    fn lay_face(&mut self, pos: Position, face: &Matrix2<Block>, clear: bool)
        requires
            old(self).wf(),
            face_fits(face, pos.pt()),
        ensures
            final(self).wf(),
            final(self).same_frame(old(self)),
            forall|x: int, y: int|
                final(self).inside(x, y) ==> #[trigger] final(self).block(x, y) == (if covers(
                    face@,
                    pos.pt(),
                    (x, y),
                ) {
                    if clear {
                        cleared()
                    } else {
                        face@.at(source(pos.pt(), (x, y)))
                    }
                } else {
                    old(self).block(x, y)
                }),
    {
        let ghost old_pf = *self;
        let ghost p = pos.pt();
        let fw = face.width() as i32;
        let fh = face.height() as i32;
        let mut fy: i32 = 0;
        while fy < fh
            invariant
                self.wf(),
                old_pf.wf(),
                self.same_frame(&old_pf),
                face_fits(face, p),
                p == pos.pt(),
                fw == face@.width(),
                fh == face@.height(),
                0 <= fy <= fh,
                forall|x: int, y: int|
                    self.inside(x, y) ==> #[trigger] self.block(x, y) == (if covers(face@, p, (x, y))
                        && source(p, (x, y)).1 < fy {
                        if clear {
                            cleared()
                        } else {
                            face@.at(source(p, (x, y)))
                        }
                    } else {
                        old_pf.block(x, y)
                    }),
            decreases fh - fy,
        {
            let mut fx: i32 = 0;
            while fx < fw
                invariant
                    self.wf(),
                    old_pf.wf(),
                    self.same_frame(&old_pf),
                    face_fits(face, p),
                    p == pos.pt(),
                    fw == face@.width(),
                    fh == face@.height(),
                    0 <= fy < fh,
                    0 <= fx <= fw,
                    forall|x: int, y: int|
                        self.inside(x, y) ==> #[trigger] self.block(x, y) == (if covers(
                            face@,
                            p,
                            (x, y),
                        ) && before(source(p, (x, y)), (fx as int, fy as int)) {
                            if clear {
                                cleared()
                            } else {
                                face@.at(source(p, (x, y)))
                            }
                        } else {
                            old_pf.block(x, y)
                        }),
                decreases fw - fx,
            {
                proof {
                    face@.lemma_contains_index((fx as int, fy as int));
                }
                let b = *face.get(Vec2 { x: fx, y: fy });
                if b.is_set() {
                    let ghost prev = *self;
                    let tx = pos.x + fx;
                    let ty = pos.y + fy;
                    let nb = if clear {
                        Block::new_not_set()
                    } else {
                        b
                    };
                    self.set_block(Position { x: tx, y: ty }, nb);
                    proof {
                        let t = (tx as int, ty as int);
                        assert(source(p, t) == (fx as int, fy as int));
                        assert forall|x: int, y: int| self.inside(x, y) implies #[trigger] self.block(
                            x,
                            y,
                        ) == (if covers(face@, p, (x, y)) && before(
                            source(p, (x, y)),
                            (fx + 1, fy as int),
                        ) {
                            if clear {
                                cleared()
                            } else {
                                face@.at(source(p, (x, y)))
                            }
                        } else {
                            old_pf.block(x, y)
                        }) by {
                            assert(prev.inside(x, y));
                            if prev.inside(t.0, t.1) {
                                if x == t.0 && y == t.1 {
                                    prev.grid().law_at_set_same(t, nb);
                                    assert(self.block(x, y) == nb);
                                } else {
                                    prev.grid().law_at_set_other(t, (x, y), nb);
                                    assert(self.block(x, y) == prev.block(x, y));
                                }
                            } else {
                                assert(self.grid() == prev.grid());
                                assert(self.block(x, y) == prev.block(x, y));
                            }
                        }
                    }
                } else {
                    proof {
                        assert forall|x: int, y: int| self.inside(x, y) implies #[trigger] self.block(
                            x,
                            y,
                        ) == (if covers(face@, p, (x, y)) && before(
                            source(p, (x, y)),
                            (fx + 1, fy as int),
                        ) {
                            if clear {
                                cleared()
                            } else {
                                face@.at(source(p, (x, y)))
                            }
                        } else {
                            old_pf.block(x, y)
                        }) by {
                            if source(p, (x, y)) == (fx as int, fy as int) {
                                assert(!covers(face@, p, (x, y)));
                            }
                        }
                    }
                }
                fx = fx + 1;
            }
            fy = fy + 1;
        }
        proof {
            assert forall|x: int, y: int| self.inside(x, y) implies #[trigger] self.block(x, y) == (if covers(
                face@,
                p,
                (x, y),
            ) {
                if clear {
                    cleared()
                } else {
                    face@.at(source(p, (x, y)))
                }
            } else {
                old_pf.block(x, y)
            }) by {
                if covers(face@, p, (x, y)) {
                    assert(source(p, (x, y)).1 < fh);
                }
            }
        }
    }

    /// Whether a set block of the face, with its top-left cell at `pos`,
    /// lands on a set block of the playfield or outside it.
    pub fn test_collision(&self, pos: Position, face: &Matrix2<Block>) -> (r: bool)
        requires
            self.wf(),
            face_fits(face, pos.pt()),
        ensures
            r == self.collides(face@, pos.pt()),
    {
        let ghost p = pos.pt();
        let fw = face.width() as i32;
        let fh = face.height() as i32;
        let mut fy: i32 = 0;
        while fy < fh
            invariant
                self.wf(),
                face_fits(face, p),
                p == pos.pt(),
                fw == face@.width(),
                fh == face@.height(),
                0 <= fy <= fh,
                forall|f: (int, int)|
                    face@.contains(f) && face@.at(f).occupied() && f.1 < fy ==> !#[trigger] self.occupied(
                        p.0 + f.0,
                        p.1 + f.1,
                    ),
            decreases fh - fy,
        {
            let mut fx: i32 = 0;
            while fx < fw
                invariant
                    self.wf(),
                    face_fits(face, p),
                    p == pos.pt(),
                    fw == face@.width(),
                    fh == face@.height(),
                    0 <= fy < fh,
                    0 <= fx <= fw,
                    forall|f: (int, int)|
                        face@.contains(f) && face@.at(f).occupied() && before(f, (fx as int, fy as int))
                            ==> !#[trigger] self.occupied(p.0 + f.0, p.1 + f.1),
                decreases fw - fx,
            {
                proof {
                    face@.lemma_contains_index((fx as int, fy as int));
                }
                let b = face.get(Vec2 { x: fx, y: fy });
                if b.is_set() && self.block_is_set(Position { x: pos.x + fx, y: pos.y + fy }) {
                    assert(self.hits(face@, p, (fx as int, fy as int)));
                    return true;
                }
                fx = fx + 1;
            }
            fy = fy + 1;
        }
        proof {
            assert forall|f: (int, int)|
                face@.contains(f) && face@.at(f).occupied() implies !#[trigger] self.occupied(
                p.0 + f.0,
                p.1 + f.1,
            ) by {
                assert(f.1 < fh);
            }
        }
        false
    }
}

/// Once a face with a set block is placed, testing the same face at the
/// same place finds a collision.
pub proof fn law_placed_face_collides(
    before: Playfield,
    placed: Playfield,
    face: Cells<Block>,
    pos: (int, int),
    f: (int, int),
)
    requires
        placed.same_frame(&before),
        forall|x: int, y: int|
            placed.inside(x, y) ==> #[trigger] placed.block(x, y) == (if covers(face, pos, (x, y)) {
                face.at(source(pos, (x, y)))
            } else {
                before.block(x, y)
            }),
        face.contains(f),
        face.at(f).occupied(),
    ensures
        placed.collides(face, pos),
{
    let q = (pos.0 + f.0, pos.1 + f.1);
    assert(source(pos, q) == f);
    if placed.inside(q.0, q.1) {
        assert(placed.block(q.0, q.1) == face.at(f));
    }
    assert(placed.hits(face, pos, f));
}

/// Removing a face right after placing it at the same place gives back
/// the playfield, where the cells that its set blocks cover were clear.
pub proof fn law_remove_undoes_place(
    before: Playfield,
    placed: Playfield,
    removed: Playfield,
    face: Cells<Block>,
    pos: (int, int),
)
    requires
        placed.same_frame(&before),
        removed.same_frame(&placed),
        forall|x: int, y: int|
            placed.inside(x, y) ==> #[trigger] placed.block(x, y) == (if covers(face, pos, (x, y)) {
                face.at(source(pos, (x, y)))
            } else {
                before.block(x, y)
            }),
        forall|x: int, y: int|
            removed.inside(x, y) ==> #[trigger] removed.block(x, y) == (if covers(face, pos, (x, y)) {
                cleared()
            } else {
                placed.block(x, y)
            }),
        forall|x: int, y: int|
            before.inside(x, y) && covers(face, pos, (x, y)) ==> #[trigger] before.block(x, y) == cleared(),
    ensures
        forall|x: int, y: int| #[trigger] removed.block(x, y) == before.block(x, y),
{
    assert forall|x: int, y: int| #[trigger] removed.block(x, y) == before.block(x, y) by {
        if removed.inside(x, y) {
            assert(placed.block(x, y) == placed.block(x, y));
            assert(before.inside(x, y));
        }
    }
}

/// Over any run of calls that each keep the frame (every mutating method
/// of the playfield does), the playfield keeps the size and name it had.
pub proof fn law_frame_kept(pfs: Seq<Playfield>)
    requires
        pfs.len() > 0,
        forall|i: int| 0 <= i < pfs.len() - 1 ==> #[trigger] pfs[i + 1].same_frame(&pfs[i]),
    ensures
        forall|i: int| 0 <= i < pfs.len() ==> (#[trigger] pfs[i]).same_frame(&pfs[0]),
    decreases pfs.len(),
{
    if pfs.len() > 1 {
        let init = pfs.drop_last();
        assert forall|i: int| 0 <= i < init.len() - 1 implies #[trigger] init[i + 1].same_frame(&init[i]) by {
            assert(init[i + 1] == pfs[i + 1] && init[i] == pfs[i]);
        }
        law_frame_kept(init);
        assert forall|i: int| 0 <= i < pfs.len() implies (#[trigger] pfs[i]).same_frame(&pfs[0]) by {
            if i < pfs.len() - 1 {
                assert(pfs[i] == init[i]);
            } else {
                let k = i - 1;
                assert(pfs[k + 1].same_frame(&pfs[k]));
                assert(pfs[i - 1] == init[i - 1]);
            }
        }
    }
}

/// Every line listed as full in a well-formed playfield lies above its
/// bottom, and there are no more of them than rows.
pub proof fn law_full_rows_below(pf: Playfield)
    requires
        pf.wf(),
    ensures
        forall|j: int| 0 <= j < pf.full_rows().len() ==> #[trigger] pf.full_rows()[j] < pf.h(),
        pf.full_rows().len() <= pf.h(),
{
    pf.lemma_wf();
    pf.law_full_rows(pf.h());
    lemma_full_rows_len(pf, pf.h());
}

proof fn lemma_full_rows_len(pf: Playfield, k: int)
    requires
        0 <= k,
    ensures
        pf.full_rows_upto(k).len() <= k,
    decreases k,
{
    if k > 0 {
        lemma_full_rows_len(pf, k - 1);
    }
}

} // verus!
