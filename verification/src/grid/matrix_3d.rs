use vstd::prelude::*;

use crate::cells::Cells3;

verus! {

/// A box of items addressed from (0, 0, 0), stored layer by layer.
#[derive(Debug, Clone)]
pub struct Matrix3D<T> {
    width: usize,
    height: usize,
    depth: usize,
    items: Vec<T>,
}

impl<T> View for Matrix3D<T> {
    type V = Cells3<T>;

    closed spec fn view(&self) -> Cells3<T> {
        Cells3 {
            tl: (0, 0, 0),
            br: (self.width as int, self.height as int, self.depth as int),
            cells: self.items@,
        }
    }
}

impl<T> Matrix3D<T> {
    pub open spec fn wf(&self) -> bool {
        self@.wf()
    }

    pub fn get(&self, x: usize, y: usize, z: usize) -> (r: &T)
        requires
            self.wf(),
            self@.index_ok((x as int, y as int, z as int)),
        ensures
            *r == self@.at((x as int, y as int, z as int)),
    {
        let _n = self.items.len();
        proof {
            self@.lemma_index_ok_bounds((x as int, y as int, z as int));
            assert(z * self.height * self.width == (z as int - 0) * (self.height as int - 0) * (
            self.width as int - 0));
            assert(y * self.width == (y as int - 0) * (self.width as int - 0));
        }
        &self.items[z * self.height * self.width + y * self.width + x]
    }

    pub fn set(&mut self, x: usize, y: usize, z: usize, item: T)
        requires
            old(self).wf(),
            old(self)@.index_ok((x as int, y as int, z as int)),
        ensures
            final(self).wf(),
            final(self)@ == old(self)@.set((x as int, y as int, z as int), item),
    {
        let _n = self.items.len();
        proof {
            self@.lemma_index_ok_bounds((x as int, y as int, z as int));
            assert(z * self.height * self.width == (z as int - 0) * (self.height as int - 0) * (
            self.width as int - 0));
            assert(y * self.width == (y as int - 0) * (self.width as int - 0));
        }
        let i = z * self.height * self.width + y * self.width + x;
        self.items.set(i, item);
        assert(self@.cells =~= old(self)@.set((x as int, y as int, z as int), item).cells);
    }
}

impl<T: Clone> Matrix3D<T> {
    pub fn new(width: usize, height: usize, depth: usize, initial_value: T) -> (m: Self)
        requires
            width * height <= usize::MAX,
            width * height * depth <= usize::MAX,
        ensures
            m.wf(),
            m@.br == (width as int, height as int, depth as int),
            forall|i: int| 0 <= i < m@.cells.len() ==> cloned(initial_value, #[trigger] m@.cells[i]),
    {
        Matrix3D {
            width: width,
            height: height,
            depth: depth,
            items: vec![initial_value; width * height * depth],
        }
    }
}

} // verus!
