use vstd::prelude::*;

use crate::cells::Cells;

verus! {

/// A grid of items addressed from (0, 0), stored row by row.
#[derive(Debug, Clone, Eq, PartialEq)]
pub struct Matrix2D<T> {
    width: usize,
    height: usize,
    items: Vec<T>,
}

impl<T> View for Matrix2D<T> {
    type V = Cells<T>;

    closed spec fn view(&self) -> Cells<T> {
        Cells { tl: (0, 0), br: (self.width as int, self.height as int), cells: self.items@ }
    }
}

impl<T> Matrix2D<T> {
    pub open spec fn wf(&self) -> bool {
        self@.wf()
    }

    pub fn get(&self, x: usize, y: usize) -> (r: &T)
        requires
            self.wf(),
            self@.index_ok((x as int, y as int)),
        ensures
            *r == self@.at((x as int, y as int)),
    {
        let _n = self.items.len();
        proof {
            self@.lemma_index_ok_bounds((x as int, y as int));
            assert(y * self.width == (y as int - 0) * (self.width as int - 0));
        }
        &self.items[y * self.width + x]
    }

    pub fn set(&mut self, x: usize, y: usize, item: T)
        requires
            old(self).wf(),
            old(self)@.index_ok((x as int, y as int)),
        ensures
            final(self).wf(),
            final(self)@ == old(self)@.set((x as int, y as int), item),
    {
        let _n = self.items.len();
        proof {
            self@.lemma_index_ok_bounds((x as int, y as int));
            assert(y * self.width == (y as int - 0) * (self.width as int - 0));
        }
        let i = y * self.width + x;
        self.items.set(i, item);
        assert(self@.cells =~= old(self)@.set((x as int, y as int), item).cells);
    }

    pub fn width(&self) -> (r: usize)
        ensures
            r == self@.width(),
    {
        self.width
    }

    pub fn height(&self) -> (r: usize)
        ensures
            r == self@.height(),
    {
        self.height
    }
}

impl<T: Clone> Matrix2D<T> {
    pub fn new(width: usize, height: usize, initial_value: T) -> (m: Self)
        requires
            width * height <= usize::MAX,
        ensures
            m.wf(),
            m@.br == (width as int, height as int),
            forall|i: int| 0 <= i < m@.cells.len() ==> cloned(initial_value, #[trigger] m@.cells[i]),
    {
        Matrix2D { width: width, height: height, items: vec![initial_value; width * height] }
    }

    /// Builds a matrix from rows of items; the first row gives the width.
    pub fn new_init(items: &[&[T]]) -> (m: Self)
        requires
            items@.len() >= 1,
            items@[0]@.len() >= 1,
            forall|y: int| 0 <= y < items@.len() ==> #[trigger] items@[y]@.len() >= items@[0]@.len(),
            items@.len() * items@[0]@.len() <= usize::MAX,
        ensures
            m.wf(),
            m@.br == (items@[0]@.len() as int, items@.len() as int),
            forall|x: int, y: int|
                0 <= y < items@.len() && 0 <= x < items@[0]@.len() ==> cloned(
                    items@[y]@[x],
                    #[trigger] m@.at((x, y)),
                ),
    {
        let height = items.len();
        let width = items[0].len();
        proof {
            assert(width * height <= usize::MAX) by (nonlinear_arith)
                requires
                    height * width <= usize::MAX,
            ;
        }
        let mut m = Matrix2D {
            width: width,
            height: height,
            items: vec![items[0][0].clone(); width * height],
        };
        assert(m@.wf()) by {
            assert(m@.cells.len() == m@.width() * m@.height()) by (nonlinear_arith)
                requires
                    m@.cells.len() == width * height,
                    m@.width() == width,
                    m@.height() == height,
            ;
        }
        let mut y: usize = 0;
        while y < height
            invariant
                0 <= y <= height,
                height == items@.len(),
                width == items@[0]@.len(),
                forall|yy: int| 0 <= yy < items@.len() ==> #[trigger] items@[yy]@.len() >= width,
                m.wf(),
                m@.br == (width as int, height as int),
                forall|xx: int, yy: int|
                    0 <= yy < y && 0 <= xx < width ==> cloned(
                        items@[yy]@[xx],
                        #[trigger] m@.at((xx, yy)),
                    ),
            decreases height - y,
        {
            let mut x: usize = 0;
            while x < width
                invariant
                    0 <= y < height,
                    0 <= x <= width,
                    height == items@.len(),
                    width == items@[0]@.len(),
                    forall|yy: int| 0 <= yy < items@.len() ==> #[trigger] items@[yy]@.len() >= width,
                    m.wf(),
                    m@.br == (width as int, height as int),
                    forall|xx: int, yy: int|
                        (0 <= yy < y && 0 <= xx < width) || (yy == y && 0 <= xx < x) ==> cloned(
                            items@[yy]@[xx],
                            #[trigger] m@.at((xx, yy)),
                        ),
                decreases width - x,
            {
                let ghost old_m = m@;
                let row: &[T] = items[y];
                let v = row[x].clone();
                proof {
                    old_m.lemma_contains_index((x as int, y as int));
                }
                m.set(x, y, v);
                proof {
                    assert forall|xx: int, yy: int|
                        (0 <= yy < y && 0 <= xx < width) || (yy == y && 0 <= xx < x + 1) implies cloned(
                            items@[yy]@[xx],
                            #[trigger] m@.at((xx, yy)),
                        ) by {
                        if xx == x && yy == y {
                            old_m.law_at_set_same((x as int, y as int), v);
                        } else {
                            old_m.law_at_set_other((x as int, y as int), (xx, yy), v);
                        }
                    }
                }
                x = x + 1;
            }
            y = y + 1;
        }
        m
    }
}

} // verus!
