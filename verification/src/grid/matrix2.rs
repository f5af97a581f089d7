use vstd::prelude::*;

use crate::cells::Cells;
use crate::grid::block::Block;
use crate::vec2::Vec2;

verus! {

/// A rectangular grid of items between a top-left corner and a
/// bottom-right corner (exclusive), stored row by row.
#[derive(Eq, PartialEq, Debug, Clone)]
pub struct Matrix2<T> {
    tl: Vec2<i32>,  // top left coordinate
    br: Vec2<i32>,  // bottom right coordinate
    pub items: Vec<T>,
}

/// An item of a matrix together with its point.
pub struct ItemPoint<'a, T> {
    pub point: Vec2<i32>,
    pub item: &'a T,
}

/// Walks the items of a matrix row by row.
pub struct ItemIt<'a, T> {
    pub point: Vec2<i32>,
    matrix: &'a Matrix2<T>,
}

/// A row of a matrix together with its row coordinate.
pub struct RowPoint<'a, T> {
    pub point: i32,
    pub items: &'a [T],
}

/// Walks the rows of a matrix from the top.
pub struct RowIt<'a, T> {
    pub point: i32,
    matrix: &'a Matrix2<T>,
}

impl<T> View for Matrix2<T> {
    type V = Cells<T>;

    closed spec fn view(&self) -> Cells<T> {
        Cells { tl: self.tl.pt(), br: self.br.pt(), cells: self.items@ }
    }
}

/// Every cell of a grid is a clone of `init`.
pub open spec fn all_cloned<T: Clone>(c: Seq<T>, init: T) -> bool {
    forall|i: int| 0 <= i < c.len() ==> cloned(init, #[trigger] c[i])
}

impl<T> Matrix2<T> {
    /// The matrix is rectangular and its sizes fit an `i32`.
    pub open spec fn wf(&self) -> bool {
        &&& self@.wf()
        &&& self@.width() <= i32::MAX
        &&& self@.height() <= i32::MAX
        &&& self@.cells.len() <= i32::MAX
    }

    pub fn width(&self) -> (r: u32)
        requires
            self.wf(),
        ensures
            r == self@.width(),
    {
        (self.br.x - self.tl.x) as u32
    }

    pub fn height(&self) -> (r: u32)
        requires
            self.wf(),
        ensures
            r == self@.height(),
    {
        (self.br.y - self.tl.y) as u32
    }

    pub fn contains(&self, point: Vec2<i32>) -> (r: bool)
        ensures
            r == self@.contains(point.pt()),
    {
        point.x >= self.tl.x && point.x < self.br.x && point.y >= self.tl.y && point.y < self.br.y
    }

    fn index_from_point(&self, point: Vec2<i32>) -> (r: usize)
        requires
            self.wf(),
            self@.index_ok(point.pt()),
        ensures
            r == self@.index(point.pt()),
    {
        proof {
            self@.lemma_index_ok_bounds(point.pt());
        }
        let p0 = (point.x - self.tl.x) as u32;
        let p1 = (point.y - self.tl.y) as u32;
        let w = self.width();
        assert(p1 * w == (point.y - self.tl.y) * self@.width());
        (p1 * w + p0) as usize
    }

    pub fn get(&self, point: Vec2<i32>) -> (r: &T)
        requires
            self.wf(),
            self@.index_ok(point.pt()),
        ensures
            *r == self@.at(point.pt()),
    {
        let i = self.index_from_point(point);
        &self.items[i]
    }

    pub fn set(&mut self, point: Vec2<i32>, item: T)
        requires
            old(self).wf(),
            old(self)@.index_ok(point.pt()),
        ensures
            final(self).wf(),
            final(self)@ == old(self)@.set(point.pt(), item),
    {
        let index = self.index_from_point(point);
        self.items.set(index, item);
        proof {
            assert(self@.cells =~= old(self)@.set(point.pt(), item).cells);
        }
    }

    pub fn iter<'a>(&'a self) -> (it: ItemIt<'a, T>)
        ensures
            it.point_spec() == self@.tl,
            it.matrix_spec() == self,
    {
        ItemIt { point: self.tl, matrix: &self }
    }

    pub fn row_iter<'a>(&'a self) -> (it: RowIt<'a, T>)
        ensures
            it.point_spec() == self@.tl.1,
            it.matrix_spec() == self,
    {
        RowIt { point: self.tl.y, matrix: &self }
    }
}

impl<T: Clone> Matrix2<T> {
    pub fn from_coords(tl: Vec2<i32>, br: Vec2<i32>, initial_value: T) -> (m: Self)
        requires
            0 <= br.x - tl.x <= i32::MAX,
            0 <= br.y - tl.y <= i32::MAX,
            (br.x - tl.x) * (br.y - tl.y) <= i32::MAX,
        ensures
            m.wf(),
            m@.tl == tl.pt(),
            m@.br == br.pt(),
            all_cloned(m@.cells, initial_value),
    {
        let w = br.x - tl.x;
        let h = br.y - tl.y;
        assert(0 <= h * w <= i32::MAX) by (nonlinear_arith)
            requires
                0 <= h,
                0 <= w,
                w * h <= i32::MAX,
        ;
        let m = Matrix2 { items: vec![initial_value; (h * w) as usize], tl: tl, br: br };
        assert(m@.cells.len() == m@.width() * m@.height()) by (nonlinear_arith)
            requires
                m@.cells.len() == h * w,
                m@.width() == w,
                m@.height() == h,
        ;
        m
    }

    pub fn from_size(width: u32, height: u32, initial_value: T) -> (m: Matrix2<T>)
        requires
            width <= i32::MAX,
            height <= i32::MAX,
            width * height <= i32::MAX,
        ensures
            m.wf(),
            m@.tl == (0int, 0int),
            m@.br == (width as int, height as int),
            all_cloned(m@.cells, initial_value),
    {
        Self::from_coords(Vec2::new((0, 0)), Vec2::new((width as i32, height as i32)), initial_value)
    }

    /// Builds a matrix from rows of items; the first row gives the width.
    pub fn from_items(items: &[&[T]]) -> (m: Self)
        requires
            items@.len() >= 1,
            items@[0]@.len() >= 1,
            forall|y: int| 0 <= y < items@.len() ==> #[trigger] items@[y]@.len() >= items@[0]@.len(),
            items@.len() * items@[0]@.len() <= i32::MAX,
        ensures
            m.wf(),
            m@.tl == (0int, 0int),
            m@.br == (items@[0]@.len() as int, items@.len() as int),
            forall|x: int, y: int|
                0 <= y < items@.len() && 0 <= x < items@[0]@.len() ==> cloned(
                    items@[y]@[x],
                    #[trigger] m@.at((x, y)),
                ),
    {
        proof {
            let hh = items@.len() as int;
            let ww = items@[0]@.len() as int;
            assert(hh <= i32::MAX && ww <= i32::MAX) by (nonlinear_arith)
                requires
                    hh >= 1,
                    ww >= 1,
                    hh * ww <= i32::MAX,
            ;
            assert(ww * hh <= i32::MAX) by (nonlinear_arith)
                requires
                    hh * ww <= i32::MAX,
            ;
        }
        let height = items.len() as u32;
        let width = items[0].len() as u32;
        let mut m = Self::from_size(width, height, items[0][0].clone());
        let ghost w = width as int;
        let ghost h = height as int;
        let mut y: i32 = 0;
        while y < height as i32
            invariant
                0 <= y <= h,
                height == h,
                width == w,
                h <= i32::MAX,
                w <= i32::MAX,
                h == items@.len(),
                w == items@[0]@.len(),
                h * w <= i32::MAX,
                forall|yy: int| 0 <= yy < items@.len() ==> #[trigger] items@[yy]@.len() >= w,
                m.wf(),
                m@.tl == (0int, 0int),
                m@.br == (w, h),
                forall|xx: int, yy: int|
                    0 <= yy < y && 0 <= xx < w ==> cloned(
                        items@[yy]@[xx],
                        #[trigger] m@.at((xx, yy)),
                    ),
            decreases h - y,
        {
            let mut x: i32 = 0;
            while x < width as i32
                invariant
                    0 <= y < h,
                    0 <= x <= w,
                    height == h,
                    width == w,
                    h <= i32::MAX,
                    w <= i32::MAX,
                    h == items@.len(),
                    w == items@[0]@.len(),
                    forall|yy: int| 0 <= yy < items@.len() ==> #[trigger] items@[yy]@.len() >= w,
                    m.wf(),
                    m@.tl == (0int, 0int),
                    m@.br == (w, h),
                    forall|xx: int, yy: int|
                        (0 <= yy < y && 0 <= xx < w) || (yy == y && 0 <= xx < x) ==> cloned(
                            items@[yy]@[xx],
                            #[trigger] m@.at((xx, yy)),
                        ),
                decreases w - x,
            {
                let ghost old_m = m@;
                let row: &[T] = items[y as usize];
                assert(row@.len() >= w);
                let v = row[x as usize].clone();
                proof {
                    old_m.lemma_contains_index((x as int, y as int));
                }
                m.set(Vec2 { x, y }, v);
                proof {
                    assert forall|xx: int, yy: int|
                        (0 <= yy < y && 0 <= xx < w) || (yy == y && 0 <= xx < x + 1) implies cloned(
                            items@[yy]@[xx],
                            #[trigger] m@.at((xx, yy)),
                        ) by {
                        if xx == x && yy == y {
                            old_m.law_at_set_same((x as int, y as int), v);
                        } else {
                            old_m.law_at_set_other((x as int, y as int), (xx, yy), v);
                        }
                    }
                }
                x = x + 1;
            }
            y = y + 1;
        }
        m
    }
}

impl<'a, T> ItemIt<'a, T> {
    pub closed spec fn point_spec(&self) -> (int, int) {
        self.point.pt()
    }

    /// The point that the next call of `next` looks at, after stepping
    /// to the start of the next row at the end of a row.
    pub closed spec fn next_point(&self) -> (int, int) {
        let m = self.matrix@;
        if self.point.x >= m.br.0 {
            (m.tl.0, self.point.y + 1)
        } else {
            (self.point.x as int, self.point.y as int)
        }
    }

    pub closed spec fn matrix_spec(&self) -> &'a Matrix2<T> {
        self.matrix
    }

    /// Whether `next` can run: the coordinates stay inside `i32` and a
    /// point that is not past the last row has its item.
    pub closed spec fn next_ok(&self) -> bool {
        let m = self.matrix@;
        let p = self.next_point();
        &&& self.matrix.wf()
        &&& (self.point.x >= m.br.0 ==> self.point.y + 1 <= i32::MAX)
        &&& (p.1 < m.br.1 ==> m.index_ok(p) && p.0 + 1 <= i32::MAX)
    }

    pub fn next(&mut self) -> (r: Option<ItemPoint<'a, T>>)
        requires
            old(self).next_ok(),
        ensures
            final(self).matrix_spec() == old(self).matrix_spec(),
            ({
                let p = old(self).next_point();
                let m = old(self).matrix_spec()@;
                if p.1 >= m.br.1 {
                    &&& r is None
                    &&& final(self).point_spec() == p
                } else {
                    &&& r is Some
                    &&& r->0.point.pt() == p
                    &&& *r->0.item == m.at(p)
                    &&& final(self).point_spec() == (p.0 + 1, p.1)
                }
            }),
    {
        let m: &'a Matrix2<T> = self.matrix;
        if self.point.x >= m.br.x {
            self.point.x = m.tl.x;
            self.point.y = self.point.y + 1;
        }
        if self.point.y >= m.br.y {
            return None;
        }
        let point = ItemPoint { point: self.point, item: m.get(self.point) };
        self.point.x = self.point.x + 1;
        Some(point)
    }
}

impl<'a, T> RowIt<'a, T> {
    pub closed spec fn point_spec(&self) -> int {
        self.point as int
    }

    pub closed spec fn matrix_spec(&self) -> &'a Matrix2<T> {
        self.matrix
    }

    /// Whether `next` can run: a row that is not past the last one is
    /// found by the index of the point at column 0 of that row.
    pub closed spec fn next_ok(&self) -> bool {
        let m = self.matrix@;
        &&& self.matrix.wf()
        &&& (self.point < m.br.1 ==> {
            &&& m.index_ok((0, self.point as int))
            &&& m.index((0, self.point as int)) + m.width() <= m.cells.len()
        })
    }

    pub fn next(&mut self) -> (r: Option<RowPoint<'a, T>>)
        requires
            old(self).next_ok(),
        ensures
            final(self).matrix_spec() == old(self).matrix_spec(),
            ({
                let m = old(self).matrix_spec()@;
                let y = old(self).point_spec();
                if y >= m.br.1 {
                    &&& r is None
                    &&& final(self).point_spec() == y
                } else {
                    let i = m.index((0, y));
                    &&& r is Some
                    &&& r->0.point == y
                    &&& r->0.items@ == m.cells.subrange(i, i + m.width())
                    &&& final(self).point_spec() == y + 1
                }
            }),
    {
        let m: &'a Matrix2<T> = self.matrix;
        if self.point >= m.br.y {
            return None;
        }
        let width = m.width() as usize;
        let index = m.index_from_point(Vec2 { x: 0, y: self.point });
        let point = RowPoint {
            point: self.point,
            items: vstd::slice::slice_subrange(m.items.as_slice(), index, index + width),
        };
        self.point = self.point + 1;
        Some(point)
    }
}

impl Matrix2<Block> {
    /// A copy of the grid.
    pub fn copy(&self) -> (r: Matrix2<Block>)
        ensures
            r@ == self@,
    {
        let mut items: Vec<Block> = Vec::new();
        let mut i: usize = 0;
        while i < self.items.len()
            invariant
                0 <= i <= self.items@.len(),
                items@ == self.items@.subrange(0, i as int),
            decreases self.items@.len() - i,
        {
            items.push(self.items[i]);
            assert(items@ =~= self.items@.subrange(0, i + 1));
            i = i + 1;
        }
        assert(items@ =~= self.items@);
        Matrix2 { tl: self.tl, br: self.br, items: items }
    }

    /// Whether two grids of blocks have the same corners and the same blocks.
    pub fn same_as(&self, other: &Matrix2<Block>) -> (r: bool)
        ensures
            r == (self@ == other@),
    {
        if self.tl != other.tl || self.br != other.br || self.items.len() != other.items.len() {
            proof {
                if self@ == other@ {
                    assert(self.items@.len() == other.items@.len());
                }
            }
            return false;
        }
        let mut i: usize = 0;
        while i < self.items.len()
            invariant
                self.items@.len() == other.items@.len(),
                self.tl == other.tl,
                self.br == other.br,
                0 <= i <= self.items@.len(),
                forall|j: int| 0 <= j < i ==> self.items@[j] == other.items@[j],
            decreases self.items@.len() - i,
        {
            if self.items[i] != other.items[i] {
                assert(self@.cells[i as int] != other@.cells[i as int]);
                return false;
            }
            i = i + 1;
        }
        assert(self@.cells =~= other@.cells);
        true
    }
}

} // verus!
