use vstd::prelude::*;

verus! {

/// Mathematical model of a rectangular grid: the top-left corner, the
/// bottom-right corner (exclusive) and the cells in row-major order.
pub struct Cells<T> {
    pub tl: (int, int),
    pub br: (int, int),
    pub cells: Seq<T>,
}

impl<T> Cells<T> {
    pub open spec fn width(self) -> int {
        self.br.0 - self.tl.0
    }

    pub open spec fn height(self) -> int {
        self.br.1 - self.tl.1
    }

    pub open spec fn wf(self) -> bool {
        &&& self.width() >= 0
        &&& self.height() >= 0
        &&& self.cells.len() == self.width() * self.height()
    }

    pub open spec fn contains(self, p: (int, int)) -> bool {
        &&& self.tl.0 <= p.0 < self.br.0
        &&& self.tl.1 <= p.1 < self.br.1
    }

    /// Row-major index of a point.
    pub open spec fn index(self, p: (int, int)) -> int {
        (p.1 - self.tl.1) * self.width() + (p.0 - self.tl.0)
    }

    /// Whether the point's row-major index falls inside the cells
    /// (true of every contained point, and of some others).
    pub open spec fn index_ok(self, p: (int, int)) -> bool {
        &&& self.tl.0 <= p.0
        &&& self.tl.1 <= p.1
        &&& self.index(p) < self.cells.len()
    }

    pub open spec fn at(self, p: (int, int)) -> T {
        self.cells[self.index(p)]
    }

    pub open spec fn set(self, p: (int, int), v: T) -> Self {
        Cells { tl: self.tl, br: self.br, cells: self.cells.update(self.index(p), v) }
    }

    /// A contained point has an index inside the cells.
    pub proof fn lemma_contains_index(self, p: (int, int))
        requires
            self.wf(),
            self.contains(p),
        ensures
            self.index_ok(p),
            0 <= self.index(p) < self.cells.len(),
    {
        let w = self.width();
        let h = self.height();
        let dx = p.0 - self.tl.0;
        let dy = p.1 - self.tl.1;
        assert(0 <= dy * w + dx < w * h) by (nonlinear_arith)
            requires
                0 <= dx < w,
                0 <= dy < h,
        ;
    }

    /// An index that is in range comes from non-negative offsets whose row
    /// offset is no larger than the index.
    pub proof fn lemma_index_ok_bounds(self, p: (int, int))
        requires
            self.wf(),
            self.index_ok(p),
        ensures
            0 <= p.0 - self.tl.0 <= self.index(p),
            0 <= p.1 - self.tl.1 <= self.index(p),
            0 <= (p.1 - self.tl.1) * self.width() <= self.index(p),
            self.width() >= 1,
    {
        let w = self.width();
        let h = self.height();
        let dx = p.0 - self.tl.0;
        let dy = p.1 - self.tl.1;
        if w == 0 {
            assert(w * h == 0) by (nonlinear_arith)
                requires
                    w == 0,
            ;
        }
        assert(0 <= dy * w <= dy * w + dx && dy <= dy * w) by (nonlinear_arith)
            requires
                0 <= dx,
                0 <= dy,
                w >= 1,
        ;
    }

    /// Two different contained points have different indices.
    pub proof fn lemma_index_injective(self, p: (int, int), q: (int, int))
        requires
            self.wf(),
            self.contains(p),
            self.contains(q),
            p != q,
        ensures
            self.index(p) != self.index(q),
    {
        let w = self.width();
        let dx1 = p.0 - self.tl.0;
        let dy1 = p.1 - self.tl.1;
        let dx2 = q.0 - self.tl.0;
        let dy2 = q.1 - self.tl.1;
        if dy1 == dy2 {
            assert(dx1 != dx2);
        } else if dy1 < dy2 {
            assert(dy1 * w + dx1 < dy2 * w + dx2) by (nonlinear_arith)
                requires
                    0 <= dx1 < w,
                    0 <= dx2 < w,
                    dy1 < dy2,
            ;
        } else {
            assert(dy2 * w + dx2 < dy1 * w + dx1) by (nonlinear_arith)
                requires
                    0 <= dx1 < w,
                    0 <= dx2 < w,
                    dy2 < dy1,
            ;
        }
    }

    /// What is written at a point is read back from it.
    pub proof fn law_at_set_same(self, p: (int, int), v: T)
        requires
            self.wf(),
            self.contains(p),
        ensures
            self.set(p, v).wf(),
            self.set(p, v).at(p) == v,
    {
        self.lemma_contains_index(p);
    }

    /// Writing at one point leaves every other contained point unchanged.
    pub proof fn law_at_set_other(self, p: (int, int), q: (int, int), v: T)
        requires
            self.wf(),
            self.contains(p),
            self.contains(q),
            p != q,
        ensures
            self.set(p, v).at(q) == self.at(q),
    {
        self.lemma_contains_index(p);
        self.lemma_contains_index(q);
        self.lemma_index_injective(p, q);
    }

    /// The point whose row-major index is `i`.
    pub open spec fn point_of(self, i: int) -> (int, int) {
        (self.tl.0 + i % self.width(), self.tl.1 + i / self.width())
    }

    pub proof fn lemma_point_of(self, i: int)
        requires
            self.wf(),
            0 <= i < self.cells.len(),
        ensures
            self.contains(self.point_of(i)),
            self.index(self.point_of(i)) == i,
    {
        let w = self.width();
        let h = self.height();
        if w == 0 {
            assert(w * h == 0) by (nonlinear_arith)
                requires
                    w == 0,
            ;
        }
        assert(w > 0);
        vstd::arithmetic::div_mod::lemma_fundamental_div_mod(i, w);
        vstd::arithmetic::div_mod::lemma_mod_bound(i, w);
        let q = i / w;
        let r = i % w;
        assert(i == w * q + r);
        assert(0 <= q) by (nonlinear_arith)
            requires
                i == w * q + r,
                0 <= r < w,
                0 <= i,
        ;
        assert(q < h) by (nonlinear_arith)
            requires
                i == w * q + r,
                0 <= r < w,
                i < w * h,
        ;
        assert(q * w == w * q) by (nonlinear_arith);
    }

    /// Two grids with the same corners and the same item at every point
    /// are equal.
    pub proof fn lemma_ext_equal(self, other: Self)
        requires
            self.wf(),
            other.wf(),
            self.tl == other.tl,
            self.br == other.br,
            forall|p: (int, int)| self.contains(p) ==> #[trigger] self.at(p) == other.at(p),
        ensures
            self == other,
    {
        assert forall|i: int| 0 <= i < self.cells.len() implies self.cells[i] == other.cells[i] by {
            self.lemma_point_of(i);
            let p = self.point_of(i);
            assert(self.at(p) == other.at(p));
        }
        assert(self.cells =~= other.cells);
    }
}


/// Mathematical model of a box of items: the near corner, the far corner
/// (exclusive) and the items ordered by layer, then row, then column.
pub struct Cells3<T> {
    pub tl: (int, int, int),
    pub br: (int, int, int),
    pub cells: Seq<T>,
}

impl<T> Cells3<T> {
    pub open spec fn width(self) -> int {
        self.br.0 - self.tl.0
    }

    pub open spec fn height(self) -> int {
        self.br.1 - self.tl.1
    }

    pub open spec fn depth(self) -> int {
        self.br.2 - self.tl.2
    }

    pub open spec fn wf(self) -> bool {
        &&& self.width() >= 0
        &&& self.height() >= 0
        &&& self.depth() >= 0
        &&& self.cells.len() == self.width() * self.height() * self.depth()
    }

    pub open spec fn contains(self, p: (int, int, int)) -> bool {
        &&& self.tl.0 <= p.0 < self.br.0
        &&& self.tl.1 <= p.1 < self.br.1
        &&& self.tl.2 <= p.2 < self.br.2
    }

    pub open spec fn index(self, p: (int, int, int)) -> int {
        ((p.2 - self.tl.2) * self.height() + (p.1 - self.tl.1)) * self.width() + (p.0 - self.tl.0)
    }

    /// Whether the point's index falls inside the items (true of every
    /// contained point, and of some others).
    pub open spec fn index_ok(self, p: (int, int, int)) -> bool {
        &&& self.tl.0 <= p.0
        &&& self.tl.1 <= p.1
        &&& self.tl.2 <= p.2
        &&& self.index(p) < self.cells.len()
    }

    pub open spec fn at(self, p: (int, int, int)) -> T {
        self.cells[self.index(p)]
    }

    pub open spec fn set(self, p: (int, int, int), v: T) -> Self {
        Cells3 { tl: self.tl, br: self.br, cells: self.cells.update(self.index(p), v) }
    }

    pub proof fn lemma_contains_index(self, p: (int, int, int))
        requires
            self.wf(),
            self.contains(p),
        ensures
            self.index_ok(p),
            0 <= self.index(p) < self.cells.len(),
    {
        let w = self.width();
        let h = self.height();
        let d = self.depth();
        let dx = p.0 - self.tl.0;
        let dy = p.1 - self.tl.1;
        let dz = p.2 - self.tl.2;
        assert(0 <= (dz * h + dy) * w + dx < w * h * d) by (nonlinear_arith)
            requires
                0 <= dx < w,
                0 <= dy < h,
                0 <= dz < d,
        ;
    }

    /// An index in range comes from non-negative offsets, each part of
    /// the index being no larger than the index.
    pub proof fn lemma_index_ok_bounds(self, p: (int, int, int))
        requires
            self.wf(),
            self.index_ok(p),
        ensures
            self.width() >= 1,
            self.height() >= 1,
            0 <= p.0 - self.tl.0 <= self.index(p),
            0 <= p.1 - self.tl.1 <= self.index(p),
            0 <= p.2 - self.tl.2 <= self.index(p),
            0 <= (p.2 - self.tl.2) * self.height() <= self.index(p),
            0 <= (p.2 - self.tl.2) * self.height() * self.width() <= self.index(p),
            0 <= (p.1 - self.tl.1) * self.width() <= self.index(p),
            self.index(p) == (p.2 - self.tl.2) * self.height() * self.width() + (p.1 - self.tl.1)
                * self.width() + (p.0 - self.tl.0),
    {
        let w = self.width();
        let h = self.height();
        let d = self.depth();
        let dx = p.0 - self.tl.0;
        let dy = p.1 - self.tl.1;
        let dz = p.2 - self.tl.2;
        if w == 0 || h == 0 {
            assert(w * h * d == 0) by (nonlinear_arith)
                requires
                    w == 0 || h == 0,
            ;
        }
        assert(((dz * h + dy) * w + dx) == dz * h * w + dy * w + dx) by (nonlinear_arith);
        assert(0 <= dz * h && dz <= dz * h && 0 <= dz * h * w && dz * h <= dz * h * w && 0 <= dy * w
            && dy <= dy * w) by (nonlinear_arith)
            requires
                0 <= dx,
                0 <= dy,
                0 <= dz,
                w >= 1,
                h >= 1,
        ;
    }

    pub proof fn law_at_set_same(self, p: (int, int, int), v: T)
        requires
            self.wf(),
            self.contains(p),
        ensures
            self.set(p, v).wf(),
            self.set(p, v).at(p) == v,
    {
        self.lemma_contains_index(p);
    }

    pub proof fn law_at_set_other(self, p: (int, int, int), q: (int, int, int), v: T)
        requires
            self.wf(),
            self.contains(p),
            self.contains(q),
            p != q,
        ensures
            self.set(p, v).at(q) == self.at(q),
    {
        self.lemma_contains_index(p);
        self.lemma_contains_index(q);
        let w = self.width();
        let h = self.height();
        let a = (p.2 - self.tl.2) * h + (p.1 - self.tl.1);
        let b = (q.2 - self.tl.2) * h + (q.1 - self.tl.1);
        let dx1 = p.0 - self.tl.0;
        let dx2 = q.0 - self.tl.0;
        if a == b {
            let dy1 = p.1 - self.tl.1;
            let dy2 = q.1 - self.tl.1;
            let dz1 = p.2 - self.tl.2;
            let dz2 = q.2 - self.tl.2;
            if dz1 != dz2 {
                assert(dz1 * h + dy1 != dz2 * h + dy2) by (nonlinear_arith)
                    requires
                        0 <= dy1 < h,
                        0 <= dy2 < h,
                        dz1 != dz2,
                ;
            }
            assert(dx1 != dx2);
        } else {
            assert(a * w + dx1 != b * w + dx2) by (nonlinear_arith)
                requires
                    0 <= dx1 < w,
                    0 <= dx2 < w,
                    a != b,
            ;
        }
    }
}

} // verus!
