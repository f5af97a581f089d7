use vstd::prelude::*;

verus! {

/// A playfield as rows of block ids, zero for an empty cell.
#[derive(Debug)]
pub struct Playfield {
    pf_name: String,
    pf_width: usize,
    pf_height: usize,
    blocks: Vec<Vec<u8>>,
}

impl Playfield {
    pub closed spec fn name_spec(&self) -> Seq<char> {
        self.pf_name@
    }

    pub closed spec fn w(&self) -> int {
        self.pf_width as int
    }

    pub closed spec fn h(&self) -> int {
        self.pf_height as int
    }

    /// The rows of block ids.
    pub closed spec fn rows(&self) -> Seq<Seq<u8>> {
        self.blocks@.map_values(|r: Vec<u8>| r@)
    }

    /// `h()` rows of `w()` cells each; the sides fit an `i32`.
    pub open spec fn wf(&self) -> bool {
        &&& self.rows().len() == self.h()
        &&& forall|y: int| 0 <= y < self.h() ==> (#[trigger] self.rows()[y]).len() == self.w()
        &&& self.w() <= i32::MAX
        &&& self.h() <= i32::MAX
    }

    pub open spec fn inside(&self, x: int, y: int) -> bool {
        0 <= x < self.w() && 0 <= y < self.h()
    }

    /// The block id at (x, y).
    pub open spec fn cell(&self, x: int, y: int) -> u8 {
        self.rows()[y][x]
    }

    pub fn new(name: String, width: usize, height: usize) -> (pf: Playfield)
        requires
            width <= i32::MAX,
            height <= i32::MAX,
        ensures
            pf.wf(),
            pf.name_spec() == name@,
            pf.w() == width,
            pf.h() == height,
            forall|x: int, y: int| pf.inside(x, y) ==> #[trigger] pf.cell(x, y) == 0,
    {
        let mut playfield = Playfield { pf_name: name, pf_width: width, pf_height: height, blocks: vec![] };
        let mut i: usize = 0;
        while i < height
            invariant
                0 <= i <= height,
                playfield.pf_name@ == name@,
                playfield.pf_width == width,
                playfield.pf_height == height,
                playfield.blocks@.len() == i,
                forall|y: int| 0 <= y < i ==> (#[trigger] playfield.blocks@[y])@ == Seq::new(width as nat, |x: int| 0u8),
            decreases height - i,
        {
            let row = vec![0u8; width];
            assert(row@ =~= Seq::new(width as nat, |x: int| 0u8));
            playfield.blocks.push(row);
            i = i + 1;
        }
        playfield
    }

    pub fn get_block(&self, x: usize, y: usize) -> (r: u8)
        requires
            self.wf(),
            self.inside(x as int, y as int),
        ensures
            r == self.cell(x as int, y as int),
    {
        assert(self.rows()[y as int] == self.blocks@[y as int]@);
        self.blocks[y][x]
    }

    pub fn set_block(&mut self, x: usize, y: usize, block: u8)
        requires
            old(self).wf(),
            old(self).inside(x as int, y as int),
        ensures
            final(self).wf(),
            final(self).name_spec() == old(self).name_spec(),
            final(self).w() == old(self).w(),
            final(self).h() == old(self).h(),
            final(self).rows() == old(self).rows().update(
                y as int,
                old(self).rows()[y as int].update(x as int, block),
            ),
    {
        assert(self.rows()[y as int] == self.blocks@[y as int]@);
        let mut row = self.blocks[y].clone();
        assert(row@ =~= old(self).rows()[y as int]);
        row.set(x, block);
        self.blocks.set(y, row);
        assert(self.rows() =~= old(self).rows().update(
            y as int,
            old(self).rows()[y as int].update(x as int, block),
        ));
    }

    pub fn width(&self) -> (r: usize)
        ensures
            r == self.w(),
    {
        self.pf_width
    }

    pub fn height(&self) -> (r: usize)
        ensures
            r == self.h(),
    {
        self.pf_height
    }

    pub fn contains(&self, x: i32, y: i32) -> (r: bool)
        requires
            self.wf(),
        ensures
            r == self.inside(x as int, y as int),
    {
        x >= 0 && x < self.pf_width as i32 && y >= 0 && y < self.pf_height as i32
    }

    pub fn block_is_set(&self, x: usize, y: usize) -> (r: bool)
        requires
            self.wf(),
            self.inside(x as int, y as int),
        ensures
            r == (self.cell(x as int, y as int) != 0),
    {
        self.get_block(x, y) != 0
    }

    /// Every cell of row `y` holds a block.
    pub open spec fn row_full(&self, y: int) -> bool {
        forall|x: int| 0 <= x < self.w() ==> #[trigger] self.cell(x, y) != 0
    }

    /// The full rows among the first `k`, from the top.
    pub open spec fn full_rows_upto(&self, k: int) -> Seq<usize>
        decreases k,
    {
        if k <= 0 {
            Seq::empty()
        } else if self.row_full(k - 1) {
            self.full_rows_upto(k - 1).push((k - 1) as usize)
        } else {
            self.full_rows_upto(k - 1)
        }
    }

    /// The lines listed as full among the first `k` are exactly the full
    /// lines above row `k`, each once, from the top.
    pub proof fn law_full_rows(&self, k: int)
        requires
            0 <= k <= self.h(),
            self.h() <= i32::MAX,
        ensures
            forall|j: int|
                0 <= j < self.full_rows_upto(k).len() ==> 0 <= #[trigger] self.full_rows_upto(k)[j] < k
                    && self.row_full(self.full_rows_upto(k)[j] as int),
            forall|i: int, j: int|
                0 <= i < j < self.full_rows_upto(k).len() ==> self.full_rows_upto(k)[i]
                    < self.full_rows_upto(k)[j],
            forall|y: int| 0 <= y < k && self.row_full(y) ==> self.full_rows_upto(k).contains(y as usize),
        decreases k,
    {
        if k > 0 {
            self.law_full_rows(k - 1);
            let prev = self.full_rows_upto(k - 1);
            if self.row_full(k - 1) {
                let cur = prev.push((k - 1) as usize);
                assert forall|y: int| 0 <= y < k && self.row_full(y) implies cur.contains(y as usize) by {
                    if y < k - 1 {
                        let j = choose|j: int| 0 <= j < prev.len() && prev[j] == y as usize;
                        assert(cur[j] == y as usize);
                    } else {
                        assert(cur[prev.len() as int] == y as usize);
                    }
                }
            }
        }
    }


    //
    // Search playfield for full lines (returned in order of top to bottom)
    //
    pub fn find_full_lines(&self) -> (r: Vec<usize>)
        requires
            self.wf(),
        ensures
            r@ == self.full_rows_upto(self.h()),
    {
        let mut full_lines: Vec<usize> = vec![];
        let mut y: usize = 0;
        while y < self.pf_height
            invariant
                self.wf(),
                0 <= y <= self.h(),
                full_lines@ == self.full_rows_upto(y as int),
            decreases self.h() - y,
        {
            let mut line_full = true;
            let mut x: usize = 0;
            while x < self.pf_width
                invariant_except_break
                    line_full,
                    forall|xx: int| 0 <= xx < x ==> #[trigger] self.cell(xx, y as int) != 0,
                invariant
                    self.wf(),
                    0 <= y < self.h(),
                    0 <= x <= self.w(),
                ensures
                    line_full == self.row_full(y as int),
                decreases self.w() - x,
            {
                if !self.block_is_set(x, y) {
                    line_full = false;
                    break;
                }
                x = x + 1;
            }
            if line_full {
                full_lines.push(y);
            }
            y = y + 1;
        }
        full_lines
    }

    /// The rows after row `line` is thrown away: rows below keep theirs,
    /// rows up to `line` take the one above, and the top row is emptied.
    pub open spec fn after_throw(&self, line: int) -> Seq<Seq<u8>> {
        Seq::new(
            self.h() as nat,
            |y: int|
                if y > line {
                    self.rows()[y]
                } else if y >= 1 {
                    self.rows()[y - 1]
                } else {
                    Seq::new(self.w() as nat, |x: int| 0u8)
                },
        )
    }

    //
    // Remove a line from playfield and move all lines above downwards
    //
    pub fn throw_line(&mut self, line: usize)
        requires
            old(self).wf(),
            line < old(self).h(),
        ensures
            final(self).wf(),
            final(self).name_spec() == old(self).name_spec(),
            final(self).w() == old(self).w(),
            final(self).h() == old(self).h(),
            final(self).rows() == old(self).after_throw(line as int),
    {
        let ghost old_pf = self.rows();
        let mut y: i32 = line as i32;
        while y >= 0
            invariant
                self.wf(),
                self.name_spec() == old(self).name_spec(),
                self.w() == old(self).w(),
                self.h() == old(self).h(),
                old_pf == old(self).rows(),
                old(self).wf(),
                -1 <= y <= line,
                line < self.h(),
                forall|yy: int|
                    0 <= yy < self.h() ==> #[trigger] self.rows()[yy] == (if yy > y {
                        old(self).after_throw(line as int)[yy]
                    } else {
                        old_pf[yy]
                    }),
            decreases y + 1,
        {
            let w = self.pf_width;
            let mut x: usize = 0;
            while x < w
                invariant
                    self.wf(),
                    self.name_spec() == old(self).name_spec(),
                    self.w() == old(self).w(),
                    self.h() == old(self).h(),
                    w == self.w(),
                    old_pf == old(self).rows(),
                    old(self).wf(),
                    0 <= y <= line,
                    line < self.h(),
                    0 <= x <= w,
                    forall|yy: int|
                        0 <= yy < self.h() && yy != y ==> #[trigger] self.rows()[yy] == (if yy > y {
                            old(self).after_throw(line as int)[yy]
                        } else {
                            old_pf[yy]
                        }),
                    forall|xx: int|
                        0 <= xx < w ==> #[trigger] self.rows()[y as int][xx] == (if xx < x {
                            old(self).after_throw(line as int)[y as int][xx]
                        } else {
                            old_pf[y as int][xx]
                        }),
                decreases w - x,
            {
                if y >= 1 {
                    let b = self.get_block(x, (y - 1) as usize);
                    self.set_block(x, y as usize, b);
                } else {
                    self.set_block(x, y as usize, 0);
                }
                x = x + 1;
            }
            assert(self.rows()[y as int] =~= old(self).after_throw(line as int)[y as int]);
            y = y - 1;
        }
        assert(self.rows() =~= old(self).after_throw(line as int));
    }
}

} // verus!
