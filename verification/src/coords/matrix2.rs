use vstd::prelude::*;

use crate::cells::Cells;
use crate::vec2::Vec2;

verus! {

broadcast use vstd::function::group_function_axioms;

/// A grid of items with its top-left corner at (0, 0), stored row by row.
#[derive(Eq, PartialEq, Debug, Clone)]
pub struct Matrix2<T> {
    w: u32,
    h: u32,
    items: Vec<T>,
}

impl<T> View for Matrix2<T> {
    type V = Cells<T>;

    closed spec fn view(&self) -> Cells<T> {
        Cells { tl: (0, 0), br: (self.w as int, self.h as int), cells: self.items@ }
    }
}

/// Every cell is a clone of `init`.
pub open spec fn all_cloned<T: Clone>(c: Seq<T>, init: T) -> bool {
    forall|i: int| 0 <= i < c.len() ==> cloned(init, #[trigger] c[i])
}

impl<T> Matrix2<T> {
    /// The cells are `width * height` items, and the sizes fit the integer
    /// types the matrix computes in.
    pub open spec fn wf(&self) -> bool {
        &&& self@.wf()
        &&& self@.tl == (0int, 0int)
        &&& self@.width() <= i32::MAX
        &&& self@.height() <= i32::MAX
        &&& self@.cells.len() <= u32::MAX
    }

    pub fn width(&self) -> (r: u32)
        ensures
            r == self@.width(),
    {
        self.w
    }

    pub fn height(&self) -> (r: u32)
        ensures
            r == self@.height(),
    {
        self.h
    }

    pub fn items(&self) -> (r: &Vec<T>)
        ensures
            r@ == self@.cells,
    {
        &self.items
    }

    pub fn contains(&self, point: Vec2<i32>) -> (r: bool)
        requires
            self.wf(),
        ensures
            r == self@.contains(point.pt()),
    {
        point.x >= 0 && point.x < self.width() as i32 && point.y >= 0 && point.y < self.height() as i32
    }

    fn index_from_point(&self, point: Vec2<i32>) -> (r: usize)
        requires
            self.wf(),
            self@.index_ok(point.pt()),
        ensures
            r == self@.index(point.pt()),
    {
        proof {
            self@.lemma_index_ok_bounds(point.pt());
        }
        let p0 = point.x as usize;
        let p1 = point.y as usize;
        p1 * self.width() as usize + p0
    }

    pub fn get(&self, point: Vec2<i32>) -> (r: &T)
        requires
            self.wf(),
            self@.index_ok(point.pt()),
        ensures
            *r == self@.at(point.pt()),
    {
        &self.items[self.index_from_point(point)]
    }

    pub fn set(&mut self, point: Vec2<i32>, item: T)
        requires
            old(self).wf(),
            old(self)@.index_ok(point.pt()),
        ensures
            final(self).wf(),
            final(self)@ == old(self)@.set(point.pt(), item),
    {
        let index = self.index_from_point(point);
        self.items.set(index, item);
        proof {
            assert(self@.cells =~= old(self)@.set(point.pt(), item).cells);
        }
    }
}

impl<T: Clone> Matrix2<T> {
    pub fn from_size(width: u32, height: u32, initial_value: T) -> (m: Matrix2<T>)
        requires
            width <= i32::MAX,
            height <= i32::MAX,
            width * height <= u32::MAX,
        ensures
            m.wf(),
            m@.br == (width as int, height as int),
            all_cloned(m@.cells, initial_value),
    {
        let m = Matrix2 { items: vec![initial_value; (height * width) as usize], w: width, h: height };
        assert(m@.cells.len() == m@.width() * m@.height()) by (nonlinear_arith)
            requires
                m@.cells.len() == height * width,
                m@.width() == width,
                m@.height() == height,
        ;
        m
    }

    pub fn from_items(items: &[&[T]]) -> (m: Self)
        requires
            items@.len() >= 1,
            items@[0]@.len() >= 1,
            forall|y: int| 0 <= y < items@.len() ==> #[trigger] items@[y]@.len() >= items@[0]@.len(),
            items@.len() <= i32::MAX,
            items@[0]@.len() <= i32::MAX,
            items@.len() * items@[0]@.len() <= u32::MAX,
        ensures
            m.wf(),
            m@.br == (items@[0]@.len() as int, items@.len() as int),
            forall|x: int, y: int|
                0 <= y < items@.len() && 0 <= x < items@[0]@.len() ==> cloned(
                    items@[y]@[x],
                    #[trigger] m@.at((x, y)),
                ),
    {
        let height = items.len() as u32;
        let width = if height == 0 {
            0
        } else {
            items[0].len()
        } as u32;
        assert(width * height == height * width) by (nonlinear_arith);
        let mut matrix = Self::from_size(width, height, items[0][0].clone());
        let mut y: i32 = 0;
        while y < height as i32
            invariant
                matrix.wf(),
                matrix@.br == (width as int, height as int),
                height == items@.len(),
                width == items@[0]@.len(),
                1 <= width <= i32::MAX,
                1 <= height <= i32::MAX,
                forall|r: int| 0 <= r < items@.len() ==> #[trigger] items@[r]@.len() >= width,
                0 <= y <= height,
                forall|px: int, py: int|
                    0 <= py < y && 0 <= px < width ==> cloned(items@[py]@[px], #[trigger] matrix@.at((px, py))),
            decreases height - y,
        {
            let mut x: i32 = 0;
            while x < width as i32
                invariant
                    matrix.wf(),
                    matrix@.br == (width as int, height as int),
                    height == items@.len(),
                    width == items@[0]@.len(),
                    1 <= width <= i32::MAX,
                    1 <= height <= i32::MAX,
                    forall|r: int| 0 <= r < items@.len() ==> #[trigger] items@[r]@.len() >= width,
                    0 <= y < height,
                    0 <= x <= width,
                    forall|px: int, py: int|
                        (0 <= py < y && 0 <= px < width) || (py == y && 0 <= px < x) ==> cloned(
                            items@[py]@[px],
                            #[trigger] matrix@.at((px, py)),
                        ),
                decreases width - x,
            {
                assert(items@[y as int]@.len() >= width);
                let v = items[y as usize][x as usize].clone();
                let ghost before = matrix@;
                proof {
                    before.lemma_contains_index((x as int, y as int));
                }
                matrix.set(Vec2 { x, y }, v);
                proof {
                    assert forall|px: int, py: int|
                        (0 <= py < y && 0 <= px < width) || (py == y && 0 <= px < x + 1) implies cloned(
                        items@[py]@[px],
                        #[trigger] matrix@.at((px, py)),
                    ) by {
                        if px != x || py != y {
                            before.law_at_set_other((x as int, y as int), (px, py), v);
                        } else {
                            before.law_at_set_same((x as int, y as int), v);
                        }
                    }
                }
                x = x + 1;
            }
            y = y + 1;
        }
        matrix
    }

    pub fn clone_from_slice(&mut self, other: &Matrix2<T>)
        requires
            old(self).wf(),
            old(self)@.cells.len() == other@.cells.len(),
        ensures
            final(self).wf(),
            final(self)@.br == old(self)@.br,
            final(self)@.cells.len() == other@.cells.len(),
            forall|i: int| 0 <= i < other@.cells.len() ==> cloned(other@.cells[i], #[trigger] final(self)@.cells[i]),
    {
        let n = other.items.len();
        let mut i: usize = 0;
        while i < n
            invariant
                self.wf(),
                self@.br == old(self)@.br,
                n == other@.cells.len(),
                self@.cells.len() == n,
                0 <= i <= n,
                forall|k: int| 0 <= k < i ==> cloned(other@.cells[k], #[trigger] self@.cells[k]),
            decreases n - i,
        {
            let v = other.items[i].clone();
            self.items.set(i, v);
            i = i + 1;
        }
    }
}

impl<T> Matrix2<T> {
    /// The rows from the top, each a slice of `width` items.
    pub fn row_iter(&self) -> (r: Vec<&[T]>)
        requires
            self.wf(),
            self@.width() > 0,
        ensures
            r@.len() == self@.height(),
            forall|y: int|
                0 <= y < r@.len() ==> (#[trigger] r@[y])@ == self@.cells.subrange(
                    y * self@.width(),
                    (y + 1) * self@.width(),
                ),
    {
        let w = self.w as usize;
        let h = self.h as usize;
        let mut rows: Vec<&[T]> = Vec::new();
        let mut y: usize = 0;
        while y < h
            invariant
                self.wf(),
                w == self@.width(),
                h == self@.height(),
                w > 0,
                0 <= y <= h,
                rows@.len() == y,
                forall|k: int|
                    0 <= k < y ==> (#[trigger] rows@[k])@ == self@.cells.subrange(k * w, (k + 1) * w),
            decreases h - y,
        {
            assert((y + 1) * w <= h * w) by (nonlinear_arith)
                requires
                    y < h,
                    w > 0,
            ;
            assert(y * w + w <= self@.cells.len()) by (nonlinear_arith)
                requires
                    y < h,
                    w > 0,
                    self@.cells.len() == w * h,
            ;
            assert(y * w + w == (y + 1) * w) by (nonlinear_arith);
            let row = vstd::slice::slice_subrange(self.items.as_slice(), y * w, y * w + w);
            rows.push(row);
            y = y + 1;
        }
        rows
    }

    /// Merges `other`, laid with its corner at `at`, into the matrix: each
    /// cell under an item of `other` becomes what `merge_func` makes of
    /// the cell and that item; cells outside the matrix are left out.
    pub fn merge<F>(&mut self, at: Vec2<i32>, other: &Matrix2<T>, mut merge_func: F)
        where
            F: FnMut(&mut T, &T),
        requires
            old(self).wf(),
            other.wf(),
            at.x + other@.width() - 1 <= i32::MAX,
            at.y + other@.height() - 1 <= i32::MAX,
            forall|a: &mut T, b: &T| #[trigger] call_requires(merge_func, (a, b)),
        ensures
            final(self).wf(),
            final(self)@.br == old(self)@.br,
            forall|p: (int, int)|
                #[trigger] old(self)@.contains(p) ==> if other@.contains((p.0 - at.x, p.1 - at.y)) {
                    (exists|m: &mut T| #[trigger] call_ensures(merge_func, (m, &other@.at((p.0 - at.x, p.1 - at.y))), ()) && *m == old(self)@.at(p) && *final(m) == final(self)@.at(p))
                } else {
                    final(self)@.at(p) == old(self)@.at(p)
                },
    {
        let ghost s0 = self@;
        let ghost f0 = merge_func;
        let ghost ow = other@.width();
        let mut other_x: i32 = 0;
        let mut other_y: i32 = 0;
        let n = other.items.len();
        proof {
            if ow == 0 {
                assert(n == 0) by (nonlinear_arith)
                    requires
                        n == ow * other@.height(),
                        ow == 0,
                ;
            }
        }
        let mut i: usize = 0;
        while i < n
            invariant
                self.wf(),
                other.wf(),
                self@.br == s0.br,
                s0.wf(),
                s0.tl == (0int, 0int),
                n == other@.cells.len(),
                ow == other@.width(),
                0 <= i <= n,
                i < n ==> ow > 0,
                ow > 0 ==> other_x == (i as int) % ow && other_y == (i as int) / ow,
                at.x + other@.width() - 1 <= i32::MAX,
                at.y + other@.height() - 1 <= i32::MAX,
                merge_func == f0,
                forall|a: &mut T, b: &T| #[trigger] call_requires(merge_func, (a, b)),
                forall|p: (int, int)|
                    #[trigger] s0.contains(p) ==> if other@.contains((p.0 - at.x, p.1 - at.y))
                        && other@.index((p.0 - at.x, p.1 - at.y)) < i {
                        (exists|m: &mut T| #[trigger] call_ensures(merge_func, (m, &other@.at((p.0 - at.x, p.1 - at.y))), ()) && *m == s0.at(p) && *final(m) == self@.at(p))
                    } else {
                        self@.at(p) == s0.at(p)
                    },
            decreases n - i,
        {
            proof {
                assert(ow > 0);
                vstd::arithmetic::div_mod::lemma_fundamental_div_mod(i as int, ow);
                assert(other_y < other@.height()) by (nonlinear_arith)
                    requires
                        other_y == (i as int) / ow,
                        i < other@.width() * other@.height(),
                        ow == other@.width(),
                        ow > 0,
                        i >= 0,
                ;
            }
            let point = Vec2 { x: at.x + other_x, y: at.y + other_y };
            if self.contains(point) {
                let ghost before = self@;
                let ghost q = (other_x as int, other_y as int);
                proof {
                    self@.lemma_contains_index(point.pt());
                    assert(other@.contains(q));
                    assert(other@.index(q) == i) by (nonlinear_arith)
                        requires
                            other@.index(q) == other_y * ow + other_x,
                            i as int == ow * ((i as int) / ow) + (i as int) % ow,
                            other_x == (i as int) % ow,
                            other_y == (i as int) / ow,
                    ;
                }
                let index = self.index_from_point(point);
                let ghost old_item = self.items@[index as int];
                merge_func(&mut self.items[index], &other.items[i]);
                let ghost v = self.items@[index as int];
                proof {
                    assert(other.items@[i as int] == other@.at(q));
                    assert(exists|m: &mut T| call_ensures(merge_func, (m, &other.items@[i as int]), ()) && *m == old_item && *final(m) == v);
                    assert((exists|m: &mut T| #[trigger] call_ensures(merge_func, (m, &other@.at(q)), ()) && *m == old_item && *final(m) == v));
                    assert(self@ == before.set(point.pt(), v)) by {
                        assert(self@.cells =~= before.set(point.pt(), v).cells);
                    }
                    assert forall|p: (int, int)| #[trigger] s0.contains(p) implies if other@.contains(
                        (p.0 - at.x, p.1 - at.y),
                    ) && other@.index((p.0 - at.x, p.1 - at.y)) < i + 1 {
                        (exists|m: &mut T| #[trigger] call_ensures(merge_func, (m, &other@.at((p.0 - at.x, p.1 - at.y))), ()) && *m == s0.at(p) && *final(m) == self@.at(p))
                    } else {
                        self@.at(p) == s0.at(p)
                    } by {
                        let pq = (p.0 - at.x, p.1 - at.y);
                        if p == point.pt() {
                            before.law_at_set_same(p, v);
                            assert(before.at(p) == s0.at(p));
                        } else {
                            before.law_at_set_other(point.pt(), p, v);
                            if other@.contains(pq) && other@.index(pq) == i && pq != q {
                                other@.lemma_index_injective(pq, q);
                            }
                        }
                    }
                }
            } else {
                proof {
                    assert forall|p: (int, int)| #[trigger] s0.contains(p) implies if other@.contains(
                        (p.0 - at.x, p.1 - at.y),
                    ) && other@.index((p.0 - at.x, p.1 - at.y)) < i + 1 {
                        (exists|m: &mut T| #[trigger] call_ensures(merge_func, (m, &other@.at((p.0 - at.x, p.1 - at.y))), ()) && *m == s0.at(p) && *final(m) == self@.at(p))
                    } else {
                        self@.at(p) == s0.at(p)
                    } by {
                        let pq = (p.0 - at.x, p.1 - at.y);
                        let q = (other_x as int, other_y as int);
                        if other@.contains(pq) && other@.index(pq) == i {
                            assert(other@.index(q) == i) by (nonlinear_arith)
                                requires
                                    other@.index(q) == other_y * ow + other_x,
                                    i as int == ow * ((i as int) / ow) + (i as int) % ow,
                                    other_x == (i as int) % ow,
                                    other_y == (i as int) / ow,
                            ;
                            if pq != q {
                                other@.lemma_index_injective(pq, q);
                            }
                        }
                    }
                }
            }
            let ghost ox0 = other_x as int;
            let ghost oy0 = other_y as int;
            other_x = other_x + 1;
            if other_x >= other.width() as i32 {
                other_x = 0;
                other_y = other_y + 1;
            }
            proof {
                let j = i + 1;
                assert(i as int == oy0 * ow + ox0) by (nonlinear_arith)
                    requires
                        i as int == ow * ((i as int) / ow) + (i as int) % ow,
                        ox0 == (i as int) % ow,
                        oy0 == (i as int) / ow,
                ;
                if other_x == 0 {
                    assert(j == (oy0 + 1) * ow) by (nonlinear_arith)
                        requires
                            j == oy0 * ow + ox0 + 1,
                            ox0 + 1 == ow,
                    ;
                    vstd::arithmetic::div_mod::lemma_fundamental_div_mod_converse(j, ow, other_y as int, 0);
                } else {
                    vstd::arithmetic::div_mod::lemma_fundamental_div_mod_converse(
                        j,
                        ow,
                        other_y as int,
                        other_x as int,
                    );
                }
            }
            i = i + 1;
        }
        proof {
            assert forall|p: (int, int)| #[trigger] s0.contains(p) && other@.contains((p.0 - at.x, p.1 - at.y))
                implies other@.index((p.0 - at.x, p.1 - at.y)) < n by {
                other@.lemma_contains_index((p.0 - at.x, p.1 - at.y));
            }
        }
    }

    /// What lies at a point: the matrix's item, or nothing outside it.
    pub open spec fn item_at(&self, p: (int, int)) -> Option<&T> {
        if self@.contains(p) {
            Some(&self@.at(p))
        } else {
            None
        }
    }

    /// Tests `other`, laid with its corner at `at`, item by item against
    /// what lies under it, and reports whether `test_func` said yes for
    /// some item; it stops at the first yes.
    pub fn test_overlap<F>(&self, at: Vec2<i32>, other: &Matrix2<T>, test_func: F) -> (r: bool)
        where
            F: FnMut(Option<&T>, &T) -> bool,
        requires
            self.wf(),
            other.wf(),
            at.x + other@.width() - 1 <= i32::MAX,
            at.y + other@.height() - 1 <= i32::MAX,
            forall|a: Option<&T>, b: &T| #[trigger] test_func.requires((a, b)),
        ensures
            r ==> exists|q: (int, int)|
                #[trigger] other@.contains(q) && test_func.ensures(
                    (self.item_at((at.x + q.0, at.y + q.1)), &other@.at(q)),
                    true,
                ),
            !r ==> forall|q: (int, int)|
                #[trigger] other@.contains(q) ==> test_func.ensures(
                    (self.item_at((at.x + q.0, at.y + q.1)), &other@.at(q)),
                    false,
                ),
    {
        let mut probe = test_func;
        let ghost ow = other@.width();
        let mut other_x: i32 = 0;
        let mut other_y: i32 = 0;
        let n = other.items.len();
        proof {
            if ow == 0 {
                assert(n == 0) by (nonlinear_arith)
                    requires
                        n == ow * other@.height(),
                        ow == 0,
                ;
            }
        }
        let mut i: usize = 0;
        while i < n
            invariant
                self.wf(),
                other.wf(),
                n == other@.cells.len(),
                ow == other@.width(),
                0 <= i <= n,
                i < n ==> ow > 0,
                ow > 0 ==> other_x == (i as int) % ow && other_y == (i as int) / ow,
                at.x + other@.width() - 1 <= i32::MAX,
                at.y + other@.height() - 1 <= i32::MAX,
                probe == test_func,
                forall|a: Option<&T>, b: &T| #[trigger] test_func.requires((a, b)),
                forall|q: (int, int)|
                    #[trigger] other@.contains(q) && other@.index(q) < i ==> test_func.ensures(
                        (self.item_at((at.x + q.0, at.y + q.1)), &other@.at(q)),
                        false,
                    ),
            decreases n - i,
        {
            proof {
                vstd::arithmetic::div_mod::lemma_fundamental_div_mod(i as int, ow);
                assert(other_y < other@.height()) by (nonlinear_arith)
                    requires
                        other_y == (i as int) / ow,
                        i < other@.width() * other@.height(),
                        ow == other@.width(),
                        ow > 0,
                        i >= 0,
                ;
            }
            let ghost q = (other_x as int, other_y as int);
            proof {
                assert(other@.index(q) == i) by (nonlinear_arith)
                    requires
                        other@.index(q) == other_y * ow + other_x,
                        i as int == ow * ((i as int) / ow) + (i as int) % ow,
                        other_x == (i as int) % ow,
                        other_y == (i as int) / ow,
                ;
            }
            let point = Vec2 { x: at.x + other_x, y: at.y + other_y };
            let item = if self.contains(point) {
                proof {
                    self@.lemma_contains_index(point.pt());
                }
                Some(&self.items[self.index_from_point(point)])
            } else {
                None
            };
            assert(item == self.item_at((at.x + q.0, at.y + q.1)));
            let hit = probe(item, &other.items[i]);
            assert(test_func.ensures((item, &other@.at(q)), hit));
            if hit {
                assert(other@.contains(q) && test_func.ensures(
                    (self.item_at((at.x + q.0, at.y + q.1)), &other@.at(q)),
                    true,
                ));
                return true;
            }
            proof {
                assert forall|p: (int, int)| #[trigger] other@.contains(p) && other@.index(p) < i + 1 implies test_func.ensures(
                    (self.item_at((at.x + p.0, at.y + p.1)), &other@.at(p)),
                    false,
                ) by {
                    if p != q && other@.index(p) == i {
                        other@.lemma_index_injective(p, q);
                    }
                }
            }
            let ghost ox0 = other_x as int;
            let ghost oy0 = other_y as int;
            other_x = other_x + 1;
            if other_x >= other.width() as i32 {
                other_x = 0;
                other_y = other_y + 1;
            }
            proof {
                let j = i + 1;
                if other_x == 0 {
                    assert(j == (oy0 + 1) * ow) by (nonlinear_arith)
                        requires
                            j == oy0 * ow + ox0 + 1,
                            ox0 + 1 == ow,
                    ;
                    vstd::arithmetic::div_mod::lemma_fundamental_div_mod_converse(j, ow, other_y as int, 0);
                } else {
                    vstd::arithmetic::div_mod::lemma_fundamental_div_mod_converse(
                        j,
                        ow,
                        other_y as int,
                        other_x as int,
                    );
                }
            }
            i = i + 1;
        }
        proof {
            assert forall|q: (int, int)| #[trigger] other@.contains(q) implies other@.index(q) < n by {
                other@.lemma_contains_index(q);
            }
        }
        false
    }
}

} // verus!
