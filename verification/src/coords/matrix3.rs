use vstd::prelude::*;

use crate::cells::Cells3;
use crate::coords::vec3::Vec3;

verus! {

/// A box of items between a near corner and a far corner (exclusive).
#[derive(Debug, Clone)]
pub struct Matrix3<T> {
    tl: Vec3<i32>,
    br: Vec3<i32>,
    items: Vec<T>,
}

impl<T> View for Matrix3<T> {
    type V = Cells3<T>;

    closed spec fn view(&self) -> Cells3<T> {
        Cells3 { tl: self.tl.coords(), br: self.br.coords(), cells: self.items@ }
    }
}

impl<T> Matrix3<T> {
    /// The box is well formed and its sizes fit an `i32`.
    pub open spec fn wf(&self) -> bool {
        &&& self@.wf()
        &&& self@.width() <= i32::MAX
        &&& self@.height() <= i32::MAX
        &&& self@.depth() <= i32::MAX
        &&& self@.cells.len() <= i32::MAX
    }

    pub fn width(&self) -> (r: u32)
        requires
            self.wf(),
        ensures
            r == self@.width(),
    {
        (self.br.x - self.tl.x) as u32
    }

    pub fn height(&self) -> (r: u32)
        requires
            self.wf(),
        ensures
            r == self@.height(),
    {
        (self.br.y - self.tl.y) as u32
    }

    pub fn depth(&self) -> (r: u32)
        requires
            self.wf(),
        ensures
            r == self@.depth(),
    {
        (self.br.z - self.tl.z) as u32
    }

    pub fn contains(&self, x: i32, y: i32, z: i32) -> (r: bool)
        ensures
            r == self@.contains((x as int, y as int, z as int)),
    {
        x >= self.tl.x && x < self.br.x && y >= self.tl.y && y < self.br.y && z >= self.tl.z && z
            < self.br.z
    }

    fn index_from_point(&self, point: Vec3<i32>) -> (r: usize)
        requires
            self.wf(),
            self@.index_ok(point.coords()),
        ensures
            r == self@.index(point.coords()),
    {
        proof {
            self@.lemma_index_ok_bounds(point.coords());
        }
        let x = (point.x - self.tl.x) as u32;
        let y = (point.y - self.tl.y) as u32;
        let z = (point.z - self.tl.z) as u32;
        (z * self.height() * self.width() + y * self.width() + x) as usize
    }

    pub fn get(&self, point: Vec3<i32>) -> (r: &T)
        requires
            self.wf(),
            self@.index_ok(point.coords()),
        ensures
            *r == self@.at(point.coords()),
    {
        let index = self.index_from_point(point);
        &self.items[index]
    }

    pub fn set(&mut self, point: Vec3<i32>, item: T)
        requires
            old(self).wf(),
            old(self)@.index_ok(point.coords()),
        ensures
            final(self).wf(),
            final(self)@ == old(self)@.set(point.coords(), item),
    {
        let index = self.index_from_point(point);
        self.items.set(index, item);
        assert(self@.cells =~= old(self)@.set(point.coords(), item).cells);
    }
}

impl<T: Clone> Matrix3<T> {
    pub fn new_coords(tl: Vec3<i32>, br: Vec3<i32>, initial_value: T) -> (m: Self)
        requires
            0 <= br.x - tl.x <= i32::MAX,
            0 <= br.y - tl.y <= i32::MAX,
            0 <= br.z - tl.z <= i32::MAX,
            (br.x - tl.x) * (br.y - tl.y) <= i32::MAX,
            (br.x - tl.x) * (br.y - tl.y) * (br.z - tl.z) <= i32::MAX,
        ensures
            m.wf(),
            m@.tl == tl.coords(),
            m@.br == br.coords(),
            forall|i: int| 0 <= i < m@.cells.len() ==> cloned(initial_value, #[trigger] m@.cells[i]),
    {
        let w = br.x - tl.x;
        let h = br.y - tl.y;
        let d = br.z - tl.z;
        assert(0 <= w * h <= i32::MAX && 0 <= w * h * d <= i32::MAX) by (nonlinear_arith)
            requires
                0 <= w,
                0 <= h,
                0 <= d,
                w * h <= i32::MAX,
                w * h * d <= i32::MAX,
        ;
        Matrix3 { items: vec![initial_value; (w * h * d) as usize], tl, br }
    }
}

} // verus!
