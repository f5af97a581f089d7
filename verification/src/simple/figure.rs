use vstd::prelude::*;

use crate::simple::playfield::Playfield;
use crate::simple::position::Position;

verus! {

/// One direction of a figure: rows of block ids, zero for no block.
#[derive(Clone, Debug)]
pub struct FigureDir {
    width: usize,
    height: usize,
    blocks: Vec<Vec<u8>>,
}

/// A figure: its name and its directions.
#[derive(Clone, Debug)]
pub struct Figure {
    figure_name: String,
    pub dir: Vec<FigureDir>,
}

/// Copies rows of block ids.
fn copy_rows(rows: &Vec<Vec<u8>>) -> (r: Vec<Vec<u8>>)
    ensures
        r@.len() == rows@.len(),
        forall|i: int| 0 <= i < rows@.len() ==> (#[trigger] r@[i])@ == rows@[i]@,
{
    let mut r: Vec<Vec<u8>> = Vec::new();
    let mut i: usize = 0;
    while i < rows.len()
        invariant
            0 <= i <= rows@.len(),
            r@.len() == i,
            forall|k: int| 0 <= k < i ==> (#[trigger] r@[k])@ == rows@[k]@,
        decreases rows@.len() - i,
    {
        let row = &rows[i];
        let mut copy: Vec<u8> = Vec::new();
        let mut j: usize = 0;
        while j < row.len()
            invariant
                0 <= j <= row@.len(),
                copy@ == row@.subrange(0, j as int),
            decreases row@.len() - j,
        {
            copy.push(row[j]);
            assert(copy@ =~= row@.subrange(0, j + 1));
            j = j + 1;
        }
        assert(copy@ =~= row@);
        r.push(copy);
        i = i + 1;
    }
    r
}

/// Whether (c, r) is a block of the shape.
pub open spec fn in_shape(shape: Seq<Seq<u8>>, c: int, r: int) -> bool {
    0 <= r < shape.len() && 0 <= c < shape[r].len() && shape[r][c] != 0
}

/// The grid after the shape's blocks are laid with its corner at (x, y):
/// each cell under a block takes the block's id, or zero when `erase`.
pub open spec fn stamp(g: Seq<Seq<u8>>, shape: Seq<Seq<u8>>, x: int, y: int, erase: bool) -> Seq<Seq<u8>> {
    Seq::new(
        g.len(),
        |yy: int|
            Seq::new(
                g[yy].len(),
                |xx: int|
                    if in_shape(shape, xx - x, yy - y) {
                        if erase {
                            0u8
                        } else {
                            shape[yy - y][xx - x]
                        }
                    } else {
                        g[yy][xx]
                    },
            ),
    )
}

/// Every block of the shape, laid with its corner at (x, y), falls on an
/// empty cell of a `w` by `h` grid.
pub open spec fn clear_under(g: Seq<Seq<u8>>, w: int, h: int, shape: Seq<Seq<u8>>, x: int, y: int) -> bool {
    forall|r: int, c: int|
        #[trigger] in_shape(shape, c, r) ==> 0 <= x + c < w && 0 <= y + r < h && g[y + r][x + c] == 0
}

/// Rows of ids turned over their diagonal: `width` rows of `height` ids.
pub open spec fn transposed(rows: Seq<Seq<u8>>, width: int, height: int) -> Seq<Seq<u8>> {
    Seq::new(width as nat, |x: int| Seq::new(height as nat, |y: int| rows[y][x]))
}

impl FigureDir {
    pub closed spec fn w(&self) -> int {
        self.width as int
    }

    pub closed spec fn h(&self) -> int {
        self.height as int
    }

    pub closed spec fn rows(&self) -> Seq<Seq<u8>> {
        self.blocks@.map_values(|r: Vec<u8>| r@)
    }

    /// `h()` rows, each at least `w()` ids long.
    pub open spec fn wf(&self) -> bool {
        &&& self.rows().len() == self.h()
        &&& forall|r: int| 0 <= r < self.h() ==> (#[trigger] self.rows()[r]).len() >= self.w()
    }

    pub fn new(dir_blocks: Vec<Vec<u8>>) -> (d: FigureDir)
        requires
            dir_blocks@.len() >= 1,
        ensures
            d.h() == dir_blocks@.len(),
            d.w() == dir_blocks@[0]@.len(),
            d.rows() == dir_blocks@.map_values(|r: Vec<u8>| r@),
    {
        FigureDir { height: dir_blocks.len(), width: dir_blocks[0].len(), blocks: dir_blocks }
    }

    pub fn new_empty(blocks_width: &usize, blocks_height: &usize) -> (d: FigureDir)
        ensures
            d.wf(),
            d.w() == *blocks_width,
            d.h() == *blocks_height,
            d.rows() == Seq::new(*blocks_height as nat, |y: int| Seq::new(*blocks_width as nat, |x: int| 0u8)),
    {
        let mut blocks: Vec<Vec<u8>> = Vec::new();
        let mut i: usize = 0;
        while i < *blocks_height
            invariant
                0 <= i <= *blocks_height,
                blocks@.len() == i,
                forall|k: int| 0 <= k < i ==> (#[trigger] blocks@[k])@ == Seq::new(*blocks_width as nat, |x: int| 0u8),
            decreases *blocks_height - i,
        {
            let row = vec![0u8; *blocks_width];
            assert(row@ =~= Seq::new(*blocks_width as nat, |x: int| 0u8));
            blocks.push(row);
            i = i + 1;
        }
        let d = FigureDir { height: *blocks_height, width: *blocks_width, blocks: blocks };
        assert(d.rows() =~= Seq::new(*blocks_height as nat, |y: int| Seq::new(*blocks_width as nat, |x: int| 0u8)));
        d
    }

    pub fn get_width(&self) -> (r: usize)
        ensures
            r == self.w(),
    {
        self.width
    }

    pub fn get_height(&self) -> (r: usize)
        ensures
            r == self.h(),
    {
        self.height
    }

    pub fn get_block(&self, x: usize, y: usize) -> (r: u8)
        requires
            self.wf(),
            y < self.h(),
            x < self.w(),
        ensures
            r == self.rows()[y as int][x as int],
    {
        assert(self.rows()[y as int] == self.blocks@[y as int]@);
        self.blocks[y][x]
    }

    /// A copy of the direction.
    fn copy(&self) -> (r: FigureDir)
        ensures
            r.w() == self.w(),
            r.h() == self.h(),
            r.rows() == self.rows(),
    {
        let d = FigureDir { width: self.width, height: self.height, blocks: copy_rows(&self.blocks) };
        assert(d.rows() =~= self.rows());
        d
    }

    /// The direction turned over its diagonal.
    fn transpose(&self) -> (r: FigureDir)
        requires
            self.wf(),
        ensures
            r.wf(),
            r.w() == self.h(),
            r.h() == self.w(),
            r.rows() == transposed(self.rows(), self.w(), self.h()),
    {
        let mut blocks: Vec<Vec<u8>> = Vec::new();
        let mut x: usize = 0;
        while x < self.width
            invariant
                self.wf(),
                0 <= x <= self.w(),
                blocks@.len() == x,
                forall|k: int|
                    0 <= k < x ==> (#[trigger] blocks@[k])@ == Seq::new(self.h() as nat, |y: int| self.rows()[y][k]),
            decreases self.w() - x,
        {
            let mut row: Vec<u8> = Vec::new();
            let mut y: usize = 0;
            while y < self.height
                invariant
                    self.wf(),
                    0 <= x < self.w(),
                    0 <= y <= self.h(),
                    row@ =~= Seq::new(y as nat, |yy: int| self.rows()[yy][x as int]),
                decreases self.h() - y,
            {
                row.push(self.get_block(x, y));
                y = y + 1;
            }
            blocks.push(row);
            x = x + 1;
        }
        let d = FigureDir { width: self.height, height: self.width, blocks: blocks };
        assert(d.rows() =~= transposed(self.rows(), self.w(), self.h()));
        d
    }
}

impl Figure {
    pub closed spec fn name_spec(&self) -> Seq<char> {
        self.figure_name@
    }

    /// The directions.
    pub closed spec fn dirs(&self) -> Seq<FigureDir> {
        self.dir@
    }

    /// The direction shown for `d`: directions wrap around.
    pub open spec fn dir_for(&self, d: i32) -> FigureDir {
        self.dirs()[((d as usize) as int) % (self.dirs().len() as int)]
    }

    /// The rows of direction `d` laid with their corner at (x, y) keep
    /// every coordinate inside `i32`.
    pub open spec fn fits(&self, x: int, y: int, d: i32) -> bool {
        let rows = self.dir_for(d).rows();
        &&& rows.len() <= i32::MAX
        &&& y + rows.len() <= i32::MAX + 1
        &&& forall|r: int|
            0 <= r < rows.len() ==> (#[trigger] rows[r]).len() <= i32::MAX && x + rows[r].len() <= i32::MAX + 1
    }

    pub open spec fn fits_at(&self, pos: Position) -> bool {
        self.fits(pos.x(), pos.y(), pos.d() as i32)
    }

    /// The same name, and the same directions.
    pub open spec fn same_as(&self, other: Figure) -> bool {
        &&& self.name_spec() == other.name_spec()
        &&& self.dirs().len() == other.dirs().len()
        &&& forall|i: int|
            0 <= i < self.dirs().len() ==> (#[trigger] self.dirs()[i]).rows() == other.dirs()[i].rows()
                && self.dirs()[i].w() == other.dirs()[i].w() && self.dirs()[i].h() == other.dirs()[i].h()
    }

    /// A copy of the figure.
    pub fn copy_figure(&self) -> (r: Figure)
        ensures
            r.same_as(*self),
    {
        let mut dirs: Vec<FigureDir> = Vec::new();
        let mut i: usize = 0;
        while i < self.dir.len()
            invariant
                0 <= i <= self.dirs().len(),
                dirs@.len() == i,
                forall|k: int|
                    0 <= k < i ==> (#[trigger] dirs@[k]).rows() == self.dirs()[k].rows() && dirs@[k].w()
                        == self.dirs()[k].w() && dirs@[k].h() == self.dirs()[k].h(),
            decreases self.dirs().len() - i,
        {
            dirs.push(self.dir[i].copy());
            i = i + 1;
        }
        Figure { figure_name: self.figure_name.clone(), dir: dirs }
    }

    pub fn new(name: String) -> (f: Figure)
        ensures
            f.name_spec() == name@,
            f.dirs().len() == 0,
    {
        Figure { figure_name: name, dir: vec![] }
    }

    //
    // Build new figure by turning the face of a figure over its diagonal
    // three times.
    //
    pub fn new_from_face(name: String, face_blocks: Vec<Vec<u8>>) -> (fig: Figure)
        requires
            face_blocks@.len() >= 1,
            forall|r: int| 0 <= r < face_blocks@.len() ==> (#[trigger] face_blocks@[r])@.len() >= face_blocks@[0]@.len(),
        ensures
            fig.name_spec() == name@,
            fig.dirs().len() == 4,
            fig.dirs()[0].rows() == face_blocks@.map_values(|r: Vec<u8>| r@),
            fig.dirs()[0].w() == face_blocks@[0]@.len(),
            fig.dirs()[0].h() == face_blocks@.len(),
            forall|i: int| 0 <= i < 4 ==> (#[trigger] fig.dirs()[i]).wf(),
            forall|i: int|
                0 <= i < 3 ==> (#[trigger] fig.dirs()[i + 1]).rows() == transposed(
                    fig.dirs()[i].rows(),
                    fig.dirs()[i].w(),
                    fig.dirs()[i].h(),
                ) && fig.dirs()[i + 1].w() == fig.dirs()[i].h() && fig.dirs()[i + 1].h() == fig.dirs()[i].w(),
    {
        let mut fig = Figure::new(name);
        let mut dir = FigureDir::new(face_blocks);
        assert(dir.rows()[0] == face_blocks@[0]@);
        assert(dir.wf()) by {
            assert forall|r: int| 0 <= r < dir.h() implies (#[trigger] dir.rows()[r]).len() >= dir.w() by {
                assert(dir.rows()[r] == face_blocks@[r]@);
            }
        }
        fig.dir.push(dir.copy());
        let mut k: usize = 0;
        while k < 3
            invariant
                0 <= k <= 3,
                fig.name_spec() == name@,
                fig.dirs().len() == k + 1,
                fig.dirs()[0].rows() == face_blocks@.map_values(|r: Vec<u8>| r@),
                fig.dirs()[0].w() == face_blocks@[0]@.len(),
                fig.dirs()[0].h() == face_blocks@.len(),
                dir.wf(),
                dir.rows() == fig.dirs()[k as int].rows(),
                dir.w() == fig.dirs()[k as int].w(),
                dir.h() == fig.dirs()[k as int].h(),
                forall|i: int| 0 <= i <= k ==> (#[trigger] fig.dirs()[i]).wf(),
                forall|i: int|
                    0 <= i < k ==> (#[trigger] fig.dirs()[i + 1]).rows() == transposed(
                        fig.dirs()[i].rows(),
                        fig.dirs()[i].w(),
                        fig.dirs()[i].h(),
                    ) && fig.dirs()[i + 1].w() == fig.dirs()[i].h() && fig.dirs()[i + 1].h() == fig.dirs()[i].w(),
            decreases 3 - k,
        {
            let next_dir = dir.transpose();
            fig.dir.push(next_dir.copy());
            dir = next_dir;
            k = k + 1;
        }
        fig
    }

    /// The number of directions.
    pub fn num_dirs(&self) -> (r: usize)
        ensures
            r == self.dirs().len(),
    {
        self.dir.len()
    }

    pub fn get_name(&self) -> (r: &String)
        ensures
            r@ == self.name_spec(),
    {
        &self.figure_name
    }

    pub fn add_direction(&mut self, dir_blocks: Vec<Vec<u8>>)
        requires
            dir_blocks@.len() >= 1,
        ensures
            final(self).name_spec() == old(self).name_spec(),
            final(self).dirs().len() == old(self).dirs().len() + 1,
            forall|i: int| 0 <= i < old(self).dirs().len() ==> final(self).dirs()[i] == old(self).dirs()[i],
            final(self).dirs().last().rows() == dir_blocks@.map_values(|r: Vec<u8>| r@),
            final(self).dirs().last().w() == dir_blocks@[0]@.len(),
            final(self).dirs().last().h() == dir_blocks@.len(),
    {
        self.dir.push(FigureDir::new(dir_blocks));
    }

    pub fn get_fig_dir(&self, dir_index: usize) -> (r: FigureDir)
        requires
            self.dirs().len() > 0,
        ensures
            r.rows() == self.dirs()[(dir_index as int) % (self.dirs().len() as int)].rows(),
            r.w() == self.dirs()[(dir_index as int) % (self.dirs().len() as int)].w(),
            r.h() == self.dirs()[(dir_index as int) % (self.dirs().len() as int)].h(),
    {
        let dir_index = dir_index % self.dir.len();
        return self.dir[dir_index].copy();
    }

    /// Lays the blocks of the direction shown at `pos` into the playfield,
    /// or empties their cells when `erase`; blocks outside are skipped.
    fn lay(&self, pf: &mut Playfield, pos: &Position, erase: bool)
        requires
            self.dirs().len() > 0,
            old(pf).wf(),
            self.fits_at(*pos),
        ensures
            final(pf).wf(),
            final(pf).name_spec() == old(pf).name_spec(),
            final(pf).w() == old(pf).w(),
            final(pf).h() == old(pf).h(),
            final(pf).rows() == stamp(
                old(pf).rows(),
                self.dir_for(pos.d() as i32).rows(),
                pos.x(),
                pos.y(),
                erase,
            ),
    {
        let fig_dir = self.get_fig_dir(pos.get_dir() as usize);
        let ghost shape = fig_dir.rows();
        let ghost g0 = pf.rows();
        let ghost x0 = pos.x();
        let ghost y0 = pos.y();
        let ghost w = pf.w();
        let ghost h = pf.h();
        assert(shape == self.dir_for(pos.d() as i32).rows());
        let mut row: usize = 0;
        while row < fig_dir.blocks.len()
            invariant
                pf.wf(),
                pf.name_spec() == old(pf).name_spec(),
                pf.w() == w,
                pf.h() == h,
                g0 == old(pf).rows(),
                old(pf).wf(),
                w == old(pf).w(),
                h == old(pf).h(),
                shape == fig_dir.rows(),
                x0 == pos.x(),
                y0 == pos.y(),
                shape.len() <= i32::MAX,
                y0 + shape.len() <= i32::MAX + 1,
                forall|r: int|
                    0 <= r < shape.len() ==> (#[trigger] shape[r]).len() <= i32::MAX && x0 + shape[r].len()
                        <= i32::MAX + 1,
                0 <= row <= shape.len(),
                forall|yy: int, xx: int|
                    0 <= yy < h && 0 <= xx < w ==> #[trigger] pf.rows()[yy][xx] == (if in_shape(shape, xx - x0, yy - y0)
                        && yy - y0 < row {
                        if erase {
                            0u8
                        } else {
                            shape[yy - y0][xx - x0]
                        }
                    } else {
                        g0[yy][xx]
                    }),
            decreases shape.len() - row,
        {
            let pos_y = pos.get_y() + row as i32;
            assert(fig_dir.blocks@[row as int]@ == shape[row as int]);
            let mut col: usize = 0;
            while col < fig_dir.blocks[row].len()
                invariant
                    pf.wf(),
                    pf.name_spec() == old(pf).name_spec(),
                    pf.w() == w,
                    pf.h() == h,
                    g0 == old(pf).rows(),
                    old(pf).wf(),
                    w == old(pf).w(),
                    h == old(pf).h(),
                    shape == fig_dir.rows(),
                    fig_dir.blocks@[row as int]@ == shape[row as int],
                    x0 == pos.x(),
                    y0 == pos.y(),
                    pos_y == y0 + row,
                    x0 + shape[row as int].len() <= i32::MAX + 1,
                    shape[row as int].len() <= i32::MAX,
                    shape.len() <= i32::MAX,
                    0 <= row < shape.len(),
                    0 <= col <= shape[row as int].len(),
                    forall|yy: int, xx: int|
                        0 <= yy < h && 0 <= xx < w ==> #[trigger] pf.rows()[yy][xx] == (if in_shape(
                            shape,
                            xx - x0,
                            yy - y0,
                        ) && (yy - y0 < row || (yy - y0 == row && xx - x0 < col)) {
                            if erase {
                                0u8
                            } else {
                                shape[yy - y0][xx - x0]
                            }
                        } else {
                            g0[yy][xx]
                        }),
                decreases shape[row as int].len() - col,
            {
                let b = fig_dir.blocks[row][col];
                let pos_x = pos.get_x() + col as i32;
                if b != 0 && pf.contains(pos_x, pos_y) {
                    let v: u8 = if erase {
                        0
                    } else {
                        b
                    };
                    let ghost before = pf.rows();
                    pf.set_block(pos_x as usize, pos_y as usize, v);
                    proof {
                        assert forall|yy: int, xx: int| 0 <= yy < h && 0 <= xx < w implies #[trigger] pf.rows()[yy][xx]
                            == (if in_shape(shape, xx - x0, yy - y0) && (yy - y0 < row || (yy - y0 == row && xx
                            - x0 < col + 1)) {
                            if erase {
                                0u8
                            } else {
                                shape[yy - y0][xx - x0]
                            }
                        } else {
                            g0[yy][xx]
                        }) by {
                            if yy == pos_y && xx == pos_x {
                            } else {
                                assert(pf.rows()[yy][xx] == before[yy][xx]);
                            }
                        }
                    }
                }
                col = col + 1;
            }
            row = row + 1;
        }
        proof {
            let st = stamp(g0, shape, x0, y0, erase);
            assert forall|yy: int| 0 <= yy < h implies #[trigger] pf.rows()[yy] =~= st[yy] by {
                assert(pf.rows()[yy].len() == w);
                assert(g0[yy].len() == w);
                assert forall|xx: int| 0 <= xx < w implies pf.rows()[yy][xx] == st[yy][xx] by {
                    assert(pf.rows()[yy][xx] == st[yy][xx]);
                }
            }
            assert(pf.rows() =~= st);
        }
    }

    pub fn place_figure(&self, pf: &mut Playfield, pos: &Position)
        requires
            self.dirs().len() > 0,
            old(pf).wf(),
            self.fits_at(*pos),
        ensures
            final(pf).wf(),
            final(pf).name_spec() == old(pf).name_spec(),
            final(pf).w() == old(pf).w(),
            final(pf).h() == old(pf).h(),
            final(pf).rows() == stamp(
                old(pf).rows(),
                self.dir_for(pos.d() as i32).rows(),
                pos.x(),
                pos.y(),
                false,
            ),
    {
        self.lay(pf, pos, false);
    }

    pub fn remove_figure(&self, pf: &mut Playfield, pos: &Position)
        requires
            self.dirs().len() > 0,
            old(pf).wf(),
            self.fits_at(*pos),
        ensures
            final(pf).wf(),
            final(pf).name_spec() == old(pf).name_spec(),
            final(pf).w() == old(pf).w(),
            final(pf).h() == old(pf).h(),
            final(pf).rows() == stamp(
                old(pf).rows(),
                self.dir_for(pos.d() as i32).rows(),
                pos.x(),
                pos.y(),
                true,
            ),
    {
        self.lay(pf, pos, true);
    }

    /// Whether every block of the direction shown at `pos` falls on an
    /// empty cell inside the playfield.
    pub fn test_figure(&self, pf: &Playfield, pos: &Position) -> (r: bool)
        requires
            self.dirs().len() > 0,
            pf.wf(),
            self.fits_at(*pos),
        ensures
            r == clear_under(pf.rows(), pf.w(), pf.h(), self.dir_for(pos.d() as i32).rows(), pos.x(), pos.y()),
    {
        let fig_dir = self.get_fig_dir(pos.get_dir() as usize);
        let ghost shape = fig_dir.rows();
        let ghost x0 = pos.x();
        let ghost y0 = pos.y();
        let mut row: usize = 0;
        while row < fig_dir.blocks.len()
            invariant
                pf.wf(),
                shape == fig_dir.rows(),
                shape == self.dir_for(pos.d() as i32).rows(),
                x0 == pos.x(),
                y0 == pos.y(),
                shape.len() <= i32::MAX,
                y0 + shape.len() <= i32::MAX + 1,
                forall|r: int|
                    0 <= r < shape.len() ==> (#[trigger] shape[r]).len() <= i32::MAX && x0 + shape[r].len()
                        <= i32::MAX + 1,
                0 <= row <= shape.len(),
                forall|r: int, c: int|
                    #[trigger] in_shape(shape, c, r) && r < row ==> 0 <= x0 + c < pf.w() && 0 <= y0 + r < pf.h()
                        && pf.rows()[y0 + r][x0 + c] == 0,
            decreases shape.len() - row,
        {
            let offs_y = pos.get_y() + row as i32;
            assert(fig_dir.blocks@[row as int]@ == shape[row as int]);
            let mut col: usize = 0;
            while col < fig_dir.blocks[row].len()
                invariant
                    pf.wf(),
                    shape == fig_dir.rows(),
                    shape == self.dir_for(pos.d() as i32).rows(),
                    fig_dir.blocks@[row as int]@ == shape[row as int],
                    x0 == pos.x(),
                    y0 == pos.y(),
                    offs_y == y0 + row,
                    x0 + shape[row as int].len() <= i32::MAX + 1,
                    shape[row as int].len() <= i32::MAX,
                    shape.len() <= i32::MAX,
                    0 <= row < shape.len(),
                    0 <= col <= shape[row as int].len(),
                    forall|r: int, c: int|
                        #[trigger] in_shape(shape, c, r) && (r < row || (r == row && c < col)) ==> 0 <= x0 + c
                            < pf.w() && 0 <= y0 + r < pf.h() && pf.rows()[y0 + r][x0 + c] == 0,
                decreases shape[row as int].len() - col,
            {
                let offs_x = pos.get_x() + col as i32;
                let b = fig_dir.blocks[row][col];
                if b != 0 {
                    assert(in_shape(shape, col as int, row as int));
                    if !pf.contains(offs_x, offs_y) {
                        return false;
                    } else if pf.block_is_set(offs_x as usize, offs_y as usize) {
                        return false;
                    }
                }
                col = col + 1;
            }
            row = row + 1;
        }
        true
    }

    /// Moves the figure from `current_pos` to `new_pos` if its blocks fit
    /// there; otherwise it stays at `current_pos`.
    pub fn move_figure(&self, pf: &mut Playfield, current_pos: &Position, new_pos: &Position) -> (r: bool)
        requires
            self.dirs().len() > 0,
            old(pf).wf(),
            self.fits_at(*current_pos),
            self.fits_at(*new_pos),
        ensures
            final(pf).wf(),
            final(pf).name_spec() == old(pf).name_spec(),
            final(pf).w() == old(pf).w(),
            final(pf).h() == old(pf).h(),
            ({
                let cur = self.dir_for(current_pos.d() as i32).rows();
                let new = self.dir_for(new_pos.d() as i32).rows();
                let lifted = stamp(old(pf).rows(), cur, current_pos.x(), current_pos.y(), true);
                &&& r == clear_under(lifted, old(pf).w(), old(pf).h(), new, new_pos.x(), new_pos.y())
                &&& final(pf).rows() == if r {
                    stamp(lifted, new, new_pos.x(), new_pos.y(), false)
                } else {
                    stamp(lifted, cur, current_pos.x(), current_pos.y(), false)
                }
            }),
    {
        self.remove_figure(pf, current_pos);
        if self.test_figure(pf, new_pos) {
            self.place_figure(pf, new_pos);
            return true;
        }
        self.place_figure(pf, current_pos);
        return false;
    }
}

/// Over any run of calls that each keep the name (adding a direction
/// does), a figure keeps the name it was made with.
pub proof fn law_name_kept(figs: Seq<Figure>)
    requires
        figs.len() > 0,
        forall|i: int| 0 <= i < figs.len() - 1 ==> #[trigger] figs[i + 1].name_spec() == figs[i].name_spec(),
    ensures
        forall|i: int| 0 <= i < figs.len() ==> (#[trigger] figs[i]).name_spec() == figs[0].name_spec(),
    decreases figs.len(),
{
    if figs.len() > 1 {
        let init = figs.drop_last();
        assert forall|i: int| 0 <= i < init.len() - 1 implies #[trigger] init[i + 1].name_spec() == init[i].name_spec() by {
            assert(init[i + 1] == figs[i + 1] && init[i] == figs[i]);
        }
        law_name_kept(init);
        assert forall|i: int| 0 <= i < figs.len() implies (#[trigger] figs[i]).name_spec() == figs[0].name_spec() by {
            if i < figs.len() - 1 {
                assert(figs[i] == init[i]);
            } else {
                let k = i - 1;
                assert(figs[k + 1].name_spec() == figs[k].name_spec());
                assert(figs[i - 1] == init[i - 1]);
            }
        }
    }
}

} // verus!
