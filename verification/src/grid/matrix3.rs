use vstd::prelude::*;

use crate::cells::Cells3;
use crate::grid::vec3::{ToVec3, Vec3};

verus! {

/// A box of items between a near corner and a far corner (exclusive).
#[derive(Debug, Clone)]
pub struct Matrix3<T> {
    tl: Vec3<i32>,
    br: Vec3<i32>,
    items: Vec<T>,
}

pub open spec fn pt3(v: Vec3<i32>) -> (int, int, int) {
    (v.x as int, v.y as int, v.z as int)
}

impl<T> View for Matrix3<T> {
    type V = Cells3<T>;

    closed spec fn view(&self) -> Cells3<T> {
        Cells3 { tl: pt3(self.tl), br: pt3(self.br), cells: self.items@ }
    }
}

impl<T> Matrix3<T> {
    /// The box is well formed and its sizes fit an `i32`.
    pub open spec fn wf(&self) -> bool {
        &&& self@.wf()
        &&& self@.width() <= i32::MAX
        &&& self@.height() <= i32::MAX
        &&& self@.depth() <= i32::MAX
        &&& self@.cells.len() <= i32::MAX
    }

    pub fn width(&self) -> (r: u32)
        requires
            self.wf(),
        ensures
            r == self@.width(),
    {
        (self.br.x - self.tl.x) as u32
    }

    pub fn height(&self) -> (r: u32)
        requires
            self.wf(),
        ensures
            r == self@.height(),
    {
        (self.br.y - self.tl.y) as u32
    }

    pub fn depth(&self) -> (r: u32)
        requires
            self.wf(),
        ensures
            r == self@.depth(),
    {
        (self.br.z - self.tl.z) as u32
    }

    pub fn contains(&self, x: i32, y: i32, z: i32) -> (r: bool)
        ensures
            r == self@.contains((x as int, y as int, z as int)),
    {
        x >= self.tl.x && x < self.br.x && y >= self.tl.y && y < self.br.y && z >= self.tl.z && z
            < self.br.z
    }

    fn index_of(&self, x: i32, y: i32, z: i32) -> (r: usize)
        requires
            self.wf(),
            self@.index_ok((x as int, y as int, z as int)),
        ensures
            r == self@.index((x as int, y as int, z as int)),
    {
        proof {
            self@.lemma_index_ok_bounds((x as int, y as int, z as int));
        }
        let x = (x - self.tl.x) as u32;
        let y = (y - self.tl.y) as u32;
        let z = (z - self.tl.z) as u32;
        let w = self.width();
        let h = self.height();
        (z * h * w + y * w + x) as usize
    }

    pub fn get(&self, x: i32, y: i32, z: i32) -> (r: &T)
        requires
            self.wf(),
            self@.index_ok((x as int, y as int, z as int)),
        ensures
            *r == self@.at((x as int, y as int, z as int)),
    {
        let i = self.index_of(x, y, z);
        &self.items[i]
    }

    pub fn v_get(&self, v: &Vec3<i32>) -> (r: &T)
        requires
            self.wf(),
            self@.index_ok(pt3(*v)),
        ensures
            *r == self@.at(pt3(*v)),
    {
        self.get(v.x, v.y, v.z)
    }

    pub fn tv_get<V: ToVec3<i32>>(&self, tv: &V) -> (r: &T)
        requires
            self.wf(),
            self@.index_ok(pt3(tv.as_vec3())),
        ensures
            *r == self@.at(pt3(tv.as_vec3())),
    {
        self.v_get(&tv.to_vec3())
    }

    pub fn set(&mut self, x: i32, y: i32, z: i32, item: T)
        requires
            old(self).wf(),
            old(self)@.index_ok((x as int, y as int, z as int)),
        ensures
            final(self).wf(),
            final(self)@ == old(self)@.set((x as int, y as int, z as int), item),
    {
        let i = self.index_of(x, y, z);
        self.items.set(i, item);
        assert(self@.cells =~= old(self)@.set((x as int, y as int, z as int), item).cells);
    }

    pub fn v_set(&mut self, v: &Vec3<i32>, item: T)
        requires
            old(self).wf(),
            old(self)@.index_ok(pt3(*v)),
        ensures
            final(self).wf(),
            final(self)@ == old(self)@.set(pt3(*v), item),
    {
        self.set(v.x, v.y, v.z, item);
    }

    pub fn tv_set<V: ToVec3<i32>>(&mut self, tv: &V, item: T)
        requires
            old(self).wf(),
            old(self)@.index_ok(pt3(tv.as_vec3())),
        ensures
            final(self).wf(),
            final(self)@ == old(self)@.set(pt3(tv.as_vec3()), item),
    {
        self.v_set(&tv.to_vec3(), item)
    }
}

impl<T: Clone> Matrix3<T> {
    pub fn new_coords(tl: Vec3<i32>, br: Vec3<i32>, initial_value: T) -> (m: Self)
        requires
            0 <= br.x - tl.x <= i32::MAX,
            0 <= br.y - tl.y <= i32::MAX,
            0 <= br.z - tl.z <= i32::MAX,
            (br.x - tl.x) * (br.y - tl.y) <= i32::MAX,
            (br.x - tl.x) * (br.y - tl.y) * (br.z - tl.z) <= i32::MAX,
        ensures
            m.wf(),
            m@.tl == pt3(tl),
            m@.br == pt3(br),
            forall|i: int| 0 <= i < m@.cells.len() ==> cloned(initial_value, #[trigger] m@.cells[i]),
    {
        let w = br.x - tl.x;
        let h = br.y - tl.y;
        let d = br.z - tl.z;
        assert(0 <= w * h <= i32::MAX && 0 <= w * h * d <= i32::MAX) by (nonlinear_arith)
            requires
                0 <= w,
                0 <= h,
                0 <= d,
                w * h <= i32::MAX,
                w * h * d <= i32::MAX,
        ;
        let n = w * h * d;
        Matrix3 { items: vec![initial_value; n as usize], tl: tl, br: br }
    }

    pub fn new(width: u32, height: u32, depth: u32, initial_value: T) -> (m: Self)
        requires
            width <= i32::MAX,
            height <= i32::MAX,
            depth <= i32::MAX,
            width * height <= i32::MAX,
            width * height * depth <= i32::MAX,
        ensures
            m.wf(),
            m@.tl == (0int, 0int, 0int),
            m@.br == (width as int, height as int, depth as int),
            forall|i: int| 0 <= i < m@.cells.len() ==> cloned(initial_value, #[trigger] m@.cells[i]),
    {
        Self::new_coords(
            Vec3::new(0 as i32, 0 as i32, 0 as i32),
            Vec3::new(width as i32, height as i32, depth as i32),
            initial_value,
        )
    }
}

} // verus!
