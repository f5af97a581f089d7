use vstd::prelude::*;

use crate::coords::block::Block;
use crate::coords::count::{
    grid_count,
    lemma_count_reverse,
    lemma_count_transpose,
    lemma_scan_len,
    row_scan,
    scan,
};
use crate::coords::playfield::{face_fits_at, face_in, laid, Playfield};
use crate::coords::position::Position;

verus! {

/// A figure: its name and its faces, one per direction, each the set
/// blocks of that direction as (column, row, id), stored one face after
/// the other.
#[derive(PartialEq, Clone, Debug)]
pub struct Figure {
    figure_name: String,
    // Maximum size of figure in any direction
    max_face_width: u8,
    // Each face of the figure is represented as a number of coordinates
    blocks_per_face: u8,
    num_faces: u8,
    faces: Vec<(u8, u8, u8)>,
}

/// The rows of blocks a figure is built from.
pub open spec fn rows_of(blocks: &[&[Block]]) -> Seq<Seq<Block>> {
    blocks@.map_values(|row: &[Block]| row@)
}

/// The blocks turned by `t` quarter turns: row `r`, column `c` of the
/// turned grid.
pub open spec fn turned(b: Seq<Seq<Block>>, t: int) -> spec_fn(int, int) -> Block {
    let h = b.len() as int;
    let w = b[0].len() as int;
    if t == 0 {
        |r: int, c: int| b[r][c]
    } else if t == 1 {
        |r: int, c: int| b[c][r]
    } else if t == 2 {
        |r: int, c: int| b[h - 1 - r][w - 1 - c]
    } else {
        |r: int, c: int| b[h - 1 - c][w - 1 - r]
    }
}

/// The rows of the grid turned by `t` quarter turns.
pub open spec fn turned_rows(b: Seq<Seq<Block>>, t: int) -> int {
    if t % 2 == 0 {
        b.len() as int
    } else {
        b[0].len() as int
    }
}

/// The columns of the grid turned by `t` quarter turns.
pub open spec fn turned_cols(b: Seq<Seq<Block>>, t: int) -> int {
    if t % 2 == 0 {
        b[0].len() as int
    } else {
        b.len() as int
    }
}

/// The face of the grid turned by `t` quarter turns.
pub open spec fn face_of(b: Seq<Seq<Block>>, t: int) -> Seq<(u8, u8, u8)> {
    scan(turned(b, t), turned_rows(b, t), turned_cols(b, t))
}

/// The faces of a figure built from `b`: the first two turns, then the
/// third and the fourth unless they repeat the first and the second.
pub open spec fn faces_from(b: Seq<Seq<Block>>) -> Seq<(u8, u8, u8)> {
    face_of(b, 0) + face_of(b, 1) + (if face_of(b, 2) != face_of(b, 0) {
        face_of(b, 2)
    } else {
        Seq::empty()
    }) + (if face_of(b, 3) != face_of(b, 1) {
        face_of(b, 3)
    } else {
        Seq::empty()
    })
}

/// The number of faces of a figure built from `b`.
pub open spec fn faces_count(b: Seq<Seq<Block>>) -> int {
    2 + (if face_of(b, 2) != face_of(b, 0) {
        1int
    } else {
        0
    }) + (if face_of(b, 3) != face_of(b, 1) {
        1int
    } else {
        0
    })
}

/// The number of set blocks of `b`.
pub open spec fn set_blocks(b: Seq<Seq<Block>>) -> int {
    grid_count(turned(b, 0), b.len() as int, b[0].len() as int)
}

/// The blocks form a rectangle of at most 255 rows and columns.
pub open spec fn block_rect(b: Seq<Seq<Block>>) -> bool {
    &&& 1 <= b.len() <= 255
    &&& b[0].len() <= 255
    &&& forall|r: int| 0 <= r < b.len() ==> (#[trigger] b[r]).len() == b[0].len()
}

/// The widest extent of the blocks: one past the largest column or row.
pub open spec fn widest(s: Seq<(u8, u8, u8)>) -> int
    decreases s.len(),
{
    if s.len() == 0 {
        0
    } else {
        let e = s.last();
        let m = widest(s.drop_last());
        let c = if e.0 + 1 > e.1 + 1 {
            e.0 + 1
        } else {
            e.1 + 1
        };
        if c > m {
            c
        } else {
            m
        }
    }
}

proof fn lemma_row_scan_bounds(g: spec_fn(int, int) -> Block, r: int, c: int, nr: int, nc: int)
    requires
        0 <= r < nr <= 255,
        0 <= c <= nc <= 255,
    ensures
        forall|k: int|
            0 <= k < row_scan(g, r, c).len() ==> (#[trigger] row_scan(g, r, c)[k]).0 < nc
                && row_scan(g, r, c)[k].1 < nr,
    decreases c,
{
    if c > 0 {
        lemma_row_scan_bounds(g, r, c - 1, nr, nc);
        let x = (c - 1) as u8;
        assert(x == c - 1);
        let y = r as u8;
        assert(y == r);
        let s0 = row_scan(g, r, c - 1);
        let s = row_scan(g, r, c);
        assert forall|k: int| 0 <= k < s.len() implies (#[trigger] s[k]).0 < nc && s[k].1 < nr by {
            if k < s0.len() {
                assert(s[k] == s0[k]);
            }
        }
    }
}

proof fn lemma_scan_bounds(g: spec_fn(int, int) -> Block, k: int, nr: int, nc: int)
    requires
        0 <= k <= nr <= 255,
        0 <= nc <= 255,
    ensures
        forall|i: int| 0 <= i < scan(g, k, nc).len() ==> (#[trigger] scan(g, k, nc)[i]).0 < nc && scan(g, k, nc)[i].1 < nr,
    decreases k,
{
    if k > 0 {
        lemma_scan_bounds(g, k - 1, nr, nc);
        lemma_row_scan_bounds(g, k - 1, nc, nr, nc);
        let a = scan(g, k - 1, nc);
        let b = row_scan(g, k - 1, nc);
        assert forall|i: int| 0 <= i < scan(g, k, nc).len() implies (#[trigger] scan(g, k, nc)[i]).0 < nc && scan(g, k, nc)[i].1 < nr by {
            if i < a.len() {
                assert(scan(g, k, nc)[i] == a[i]);
            } else {
                assert(scan(g, k, nc)[i] == b[i - a.len()]);
            }
        }
    }
}

/// No two blocks of a face share a cell.
pub open spec fn cells_distinct(s: Seq<(u8, u8, u8)>) -> bool {
    forall|a: int, b: int| 0 <= a < b < s.len() ==> (#[trigger] s[a]).0 != (#[trigger] s[b]).0 || s[a].1 != s[b].1
}

/// The place of a block in reading order.
spec fn reading_key(e: (u8, u8, u8)) -> int {
    e.1 as int * 256 + e.0 as int
}

proof fn lemma_row_scan_order(g: spec_fn(int, int) -> Block, r: int, c: int)
    requires
        0 <= r < 255,
        0 <= c <= 255,
    ensures
        forall|k: int| 0 <= k < row_scan(g, r, c).len() ==> (#[trigger] row_scan(g, r, c)[k]).1 == r && row_scan(g, r, c)[k].0 < c,
        forall|a: int, b: int|
            0 <= a < b < row_scan(g, r, c).len() ==> (#[trigger] row_scan(g, r, c)[a]).0 < (#[trigger] row_scan(g, r, c)[b]).0,
    decreases c,
{
    if c > 0 {
        lemma_row_scan_order(g, r, c - 1);
        let x = (c - 1) as u8;
        assert(x == c - 1);
        let y = r as u8;
        assert(y == r);
        let s0 = row_scan(g, r, c - 1);
        let s = row_scan(g, r, c);
        assert forall|k: int| 0 <= k < s.len() implies (#[trigger] s[k]).1 == r && s[k].0 < c by {
            if k < s0.len() {
                assert(s[k] == s0[k]);
            }
        }
        assert forall|a: int, b: int| 0 <= a < b < s.len() implies (#[trigger] s[a]).0 < (#[trigger] s[b]).0 by {
            assert(s[a] == s0[a]);
            if b < s0.len() {
                assert(s[b] == s0[b]);
            }
        }
    }
}

proof fn lemma_scan_order(g: spec_fn(int, int) -> Block, k: int, nc: int)
    requires
        0 <= k <= 255,
        0 <= nc <= 255,
    ensures
        forall|i: int| 0 <= i < scan(g, k, nc).len() ==> (#[trigger] scan(g, k, nc)[i]).1 < k,
        forall|a: int, b: int|
            0 <= a < b < scan(g, k, nc).len() ==> reading_key(#[trigger] scan(g, k, nc)[a]) < reading_key(
                #[trigger] scan(g, k, nc)[b],
            ),
    decreases k,
{
    if k > 0 {
        lemma_scan_order(g, k - 1, nc);
        lemma_row_scan_order(g, k - 1, nc);
        let a0 = scan(g, k - 1, nc);
        let b0 = row_scan(g, k - 1, nc);
        let s = scan(g, k, nc);
        assert(s == a0 + b0);
        assert forall|i: int| 0 <= i < s.len() implies (#[trigger] s[i]).1 < k by {
            if i < a0.len() {
                assert(s[i] == a0[i]);
            } else {
                assert(s[i] == b0[i - a0.len()]);
            }
        }
        assert forall|a: int, b: int| 0 <= a < b < s.len() implies reading_key(#[trigger] s[a]) < reading_key(
            #[trigger] s[b],
        ) by {
            if b < a0.len() {
                assert(s[a] == a0[a] && s[b] == a0[b]);
            } else if a < a0.len() {
                assert(s[a] == a0[a] && s[b] == b0[b - a0.len()]);
            } else {
                assert(s[a] == b0[a - a0.len()] && s[b] == b0[b - a0.len()]);
            }
        }
    }
}

/// The blocks of a face read row by row sit in distinct cells.
proof fn lemma_scan_distinct(g: spec_fn(int, int) -> Block, k: int, nc: int)
    requires
        0 <= k <= 255,
        0 <= nc <= 255,
    ensures
        cells_distinct(scan(g, k, nc)),
{
    lemma_scan_order(g, k, nc);
    let s = scan(g, k, nc);
    assert forall|a: int, b: int| 0 <= a < b < s.len() implies (#[trigger] s[a]).0 != (#[trigger] s[b]).0 || s[a].1
        != s[b].1 by {
        assert(reading_key(s[a]) < reading_key(s[b]));
    }
}

/// Each face of a figure built from `b` is one of the turned faces, so its
/// blocks sit in distinct cells.
proof fn lemma_faces_distinct(b: Seq<Seq<Block>>)
    requires
        block_rect(b),
    ensures
        forall|i: int|
            0 <= i < faces_count(b) ==> cells_distinct(
                #[trigger] faces_from(b).subrange(i * set_blocks(b), (i + 1) * set_blocks(b)),
            ),
{
    lemma_faces(b);
    let n = set_blocks(b);
    let f = faces_from(b);
    let a0 = face_of(b, 0);
    let a1 = face_of(b, 1);
    let a2 = face_of(b, 2);
    let a3 = face_of(b, 3);
    assert(cells_distinct(a0) && cells_distinct(a1) && cells_distinct(a2) && cells_distinct(a3));
    assert forall|i: int| 0 <= i < faces_count(b) implies cells_distinct(
        #[trigger] f.subrange(i * n, (i + 1) * n),
    ) by {
        assert(i * n == if i == 0 { 0 } else if i == 1 { n } else if i == 2 { 2 * n } else { 3 * n }) by (nonlinear_arith)
            requires
                0 <= i < 4,
        ;
        assert((i + 1) * n == i * n + n) by (nonlinear_arith);
        if i == 0 {
            assert(f.subrange(0, n) =~= a0);
        } else if i == 1 {
            assert(f.subrange(n, 2 * n) =~= a1);
        } else if i == 2 {
            if a2 != a0 {
                assert(f.subrange(2 * n, 3 * n) =~= a2);
            } else {
                assert(f.subrange(2 * n, 3 * n) =~= a3);
            }
        } else {
            assert(f.subrange(3 * n, 4 * n) =~= a3);
        }
    }
}

/// Every face built from `b` has the blocks of `b`, in columns and rows
/// below 255.
proof fn lemma_faces(b: Seq<Seq<Block>>)
    requires
        block_rect(b),
    ensures
        forall|t: int| 0 <= t < 4 ==> (#[trigger] face_of(b, t)).len() == set_blocks(b),
        forall|t: int, i: int|
            0 <= t < 4 && 0 <= i < face_of(b, t).len() ==> (#[trigger] face_of(b, t)[i]).0 < 255
                && face_of(b, t)[i].1 < 255,
        forall|t: int| 0 <= t < 4 ==> cells_distinct(#[trigger] face_of(b, t)),
{
    let h = b.len() as int;
    let w = b[0].len() as int;
    let g0 = turned(b, 0);
    let g1 = turned(b, 1);
    let g2 = turned(b, 2);
    let g3 = turned(b, 3);
    lemma_count_transpose(g0, g1, h, w);
    lemma_count_reverse(g0, g2, h, w);
    lemma_count_transpose(g2, g3, h, w);
    lemma_scan_len(g0, h, w);
    lemma_scan_len(g1, w, h);
    lemma_scan_len(g2, h, w);
    lemma_scan_len(g3, w, h);
    lemma_scan_bounds(g0, h, h, w);
    lemma_scan_bounds(g1, w, w, h);
    lemma_scan_bounds(g2, h, h, w);
    lemma_scan_bounds(g3, w, w, h);
    lemma_scan_distinct(g0, h, w);
    lemma_scan_distinct(g1, w, h);
    lemma_scan_distinct(g2, h, w);
    lemma_scan_distinct(g3, w, h);
    assert(face_of(b, 0) == scan(g0, h, w));
    assert(face_of(b, 1) == scan(g1, w, h));
    assert(face_of(b, 2) == scan(g2, h, w));
    assert(face_of(b, 3) == scan(g3, w, h));
}

impl Figure {
    pub closed spec fn name_spec(&self) -> Seq<char> {
        self.figure_name@
    }

    /// All faces, one after the other.
    pub closed spec fn faces_spec(&self) -> Seq<(u8, u8, u8)> {
        self.faces@
    }

    pub closed spec fn bpf(&self) -> int {
        self.blocks_per_face as int
    }

    pub closed spec fn nf(&self) -> int {
        self.num_faces as int
    }

    /// A figure has at most 255 faces, none wider than 255 columns.
    pub proof fn lemma_nf_bound(&self)
        ensures
            0 <= self.nf() <= 255,
            0 <= self.mw() <= 255,
    {
    }

    pub closed spec fn mw(&self) -> int {
        self.max_face_width as int
    }

    /// Face `i`: the `i`-th run of `bpf()` blocks.
    pub open spec fn face_spec(&self, i: int) -> Seq<(u8, u8, u8)> {
        self.faces_spec().subrange(i * self.bpf(), (i + 1) * self.bpf())
    }

    /// The face shown in direction `dir`: directions wrap around the faces.
    pub open spec fn face_for(&self, dir: i32) -> Seq<(u8, u8, u8)> {
        self.face_spec(((dir as usize) as int) % self.nf())
    }

    /// The faces are `nf()` runs of `bpf()` blocks, and there is at least
    /// one face of at least one block.
    pub open spec fn wf(&self) -> bool {
        &&& self.bpf() > 0
        &&& self.nf() > 0
        &&& self.faces_spec().len() == self.nf() * self.bpf()
    }

    pub fn new(name: &str) -> (f: Figure)
        ensures
            f.name_spec() == name@,
            f.faces_spec() == Seq::<(u8, u8, u8)>::empty(),
            f.bpf() == 0,
            f.nf() == 0,
            f.mw() == 0,
    {
        Figure {
            figure_name: name.to_string(),
            faces: Vec::new(),
            blocks_per_face: 0,
            max_face_width: 0,
            num_faces: 0,
        }
    }

    /// The set blocks of the grid turned by `t` quarter turns, row by row.
    fn turned_face(blocks: &[&[Block]], t: u8) -> (face: Vec<(u8, u8, u8)>)
        requires
            block_rect(rows_of(blocks)),
            t < 4,
        ensures
            face@ == face_of(rows_of(blocks), t as int),
    {
        let ghost b = rows_of(blocks);
        let ghost g = turned(b, t as int);
        let h = blocks.len();
        let w = blocks[0].len();
        assert(b[0].len() == w);
        let nr = if t % 2 == 0 {
            h
        } else {
            w
        };
        let nc = if t % 2 == 0 {
            w
        } else {
            h
        };
        let mut face: Vec<(u8, u8, u8)> = Vec::new();
        let mut row: usize = 0;
        while row < nr
            invariant
                block_rect(b),
                b == rows_of(blocks),
                g == turned(b, t as int),
                t < 4,
                h == b.len(),
                w == b[0].len(),
                nr == turned_rows(b, t as int),
                nc == turned_cols(b, t as int),
                0 <= row <= nr,
                face@ == scan(g, row as int, nc as int),
            decreases nr - row,
        {
            let mut col: usize = 0;
            while col < nc
                invariant
                    block_rect(b),
                    b == rows_of(blocks),
                    g == turned(b, t as int),
                    t < 4,
                    h == b.len(),
                    w == b[0].len(),
                    nr == turned_rows(b, t as int),
                    nc == turned_cols(b, t as int),
                    0 <= row < nr,
                    0 <= col <= nc,
                    face@ == scan(g, row as int, nc as int) + row_scan(g, row as int, col as int),
                decreases nc - col,
            {
                let (r, c) = if t == 0 {
                    (row, col)
                } else if t == 1 {
                    (col, row)
                } else if t == 2 {
                    (h - (row + 1), w - (col + 1))
                } else {
                    (h - (col + 1), w - (row + 1))
                };
                assert(b[r as int].len() == w);
                assert(blocks@[r as int]@ == b[r as int]);
                let block = &blocks[r][c];
                assert(*block == g(row as int, col as int));
                let ghost before = face@;
                if let Block::Filled(id) = block {
                    face.push((col as u8, row as u8, *id));
                }
                proof {
                    let s0 = scan(g, row as int, nc as int);
                    let r0 = row_scan(g, row as int, col as int);
                    assert(before == s0 + r0);
                    if g(row as int, col as int) is Filled {
                        assert((s0 + r0).push(face@.last()) =~= s0 + r0.push(face@.last()));
                    }
                }
                col = col + 1;
            }
            proof {
                assert(scan(g, row + 1, nc as int) == scan(g, row as int, nc as int) + row_scan(
                    g,
                    row as int,
                    nc as int,
                ));
            }
            row = row + 1;
        }
        face
    }

    /// Whether two faces list the same blocks in the same order.
    fn same_face(a: &Vec<(u8, u8, u8)>, b: &Vec<(u8, u8, u8)>) -> (r: bool)
        ensures
            r == (a@ == b@),
    {
        if a.len() != b.len() {
            return false;
        }
        let mut i: usize = 0;
        while i < a.len()
            invariant
                a@.len() == b@.len(),
                0 <= i <= a@.len(),
                forall|k: int| 0 <= k < i ==> a@[k] == b@[k],
            decreases a@.len() - i,
        {
            let (x1, y1, id1) = a[i];
            let (x2, y2, id2) = b[i];
            if x1 != x2 || y1 != y2 || id1 != id2 {
                assert(a@[i as int] != b@[i as int]);
                return false;
            }
            i = i + 1;
        }
        assert(a@ =~= b@);
        true
    }

    fn extend_faces(faces: &mut Vec<(u8, u8, u8)>, face: &Vec<(u8, u8, u8)>)
        ensures
            final(faces)@ == old(faces)@ + face@,
    {
        let mut i: usize = 0;
        while i < face.len()
            invariant
                0 <= i <= face@.len(),
                faces@ == old(faces)@ + face@.subrange(0, i as int),
            decreases face@.len() - i,
        {
            faces.push(face[i]);
            assert(old(faces)@ + face@.subrange(0, i + 1) =~= (old(faces)@ + face@.subrange(0, i as int)).push(
                face@[i as int],
            ));
            i = i + 1;
        }
        assert(face@.subrange(0, face@.len() as int) =~= face@);
    }

    //
    // Build new figure by rotating the face of a figure 90 degrees
    //
    pub fn new_from_face(name: &str, blocks: &[&[Block]]) -> (fig: Figure)
        requires
            block_rect(rows_of(blocks)),
            1 <= set_blocks(rows_of(blocks)) <= 255,
        ensures
            fig.wf(),
            fig.name_spec() == name@,
            fig.bpf() == set_blocks(rows_of(blocks)),
            fig.faces_spec() == faces_from(rows_of(blocks)),
            fig.nf() == faces_count(rows_of(blocks)),
            fig.mw() == widest(fig.faces_spec()),
            forall|i: int|
                0 <= i < fig.faces_spec().len() ==> (#[trigger] fig.faces_spec()[i]).0 < 255
                    && fig.faces_spec()[i].1 < 255,
            forall|i: int| 0 <= i < fig.nf() ==> cells_distinct(#[trigger] fig.face_spec(i)),
    {
        let ghost b = rows_of(blocks);
        proof {
            lemma_faces(b);
            lemma_faces_distinct(b);
        }
        // Direction 1
        let face1 = Self::turned_face(blocks, 0);
        // Direction 2
        let face2 = Self::turned_face(blocks, 1);
        // Direction 3
        let face3 = Self::turned_face(blocks, 2);
        // Direction 4
        let face4 = Self::turned_face(blocks, 3);
        assert(face1@ == face_of(b, 0) && face2@ == face_of(b, 1));
        assert(face3@ == face_of(b, 2) && face4@ == face_of(b, 3));
        let blocks_per_face = face1.len() as u8;

        // Remove duplicated faces
        let mut faces: Vec<(u8, u8, u8)> = Vec::new();
        Self::extend_faces(&mut faces, &face1);
        Self::extend_faces(&mut faces, &face2);
        let mut num_faces: u8 = 2;
        if !Self::same_face(&face3, &face1) {
            Self::extend_faces(&mut faces, &face3);
            num_faces = num_faces + 1;
        }
        let ghost f12 = face_of(b, 0) + face_of(b, 1);
        let ghost f123 = f12 + (if face_of(b, 2) != face_of(b, 0) {
            face_of(b, 2)
        } else {
            Seq::empty()
        });
        assert(faces@ =~= f123);
        if !Self::same_face(&face4, &face2) {
            Self::extend_faces(&mut faces, &face4);
            num_faces = num_faces + 1;
        }
        assert(faces@ =~= faces_from(b));
        let ghost n = set_blocks(b);
        assert(faces@.len() == num_faces * n) by (nonlinear_arith)
            requires
                faces@.len() == face1@.len() + face2@.len() + (if num_faces >= 3 && face3@ != face1@ {
                    face3@.len()
                } else {
                    0
                }) + (if face4@ != face2@ {
                    face4@.len()
                } else {
                    0
                }),
                face1@.len() == n,
                face2@.len() == n,
                face3@.len() == n,
                face4@.len() == n,
                num_faces == 2 + (if face3@ != face1@ {
                    1int
                } else {
                    0
                }) + (if face4@ != face2@ {
                    1int
                } else {
                    0
                }),
        ;
        proof {
            assert((faces@.len() as int) / n == num_faces as int) by {
                vstd::arithmetic::div_mod::lemma_div_multiples_vanish(num_faces as int, n);
            }
        }
        let computed_faces = (faces.len() / blocks_per_face as usize) as u8;
        assert(computed_faces == num_faces);

        let mut max_width: u8 = 0;
        let mut i: usize = 0;
        while i < faces.len()
            invariant
                0 <= i <= faces@.len(),
                max_width == widest(faces@.subrange(0, i as int)),
                forall|k: int| 0 <= k < faces@.len() ==> (#[trigger] faces@[k]).0 < 255 && faces@[k].1 < 255,
            decreases faces@.len() - i,
        {
            let (x, y, _id) = faces[i];
            let c = if x + 1 > y + 1 {
                x + 1
            } else {
                y + 1
            };
            if c > max_width {
                max_width = c;
            }
            proof {
                let s1 = faces@.subrange(0, i + 1);
                assert(s1.drop_last() =~= faces@.subrange(0, i as int));
                assert(s1.last() == faces@[i as int]);
            }
            i = i + 1;
        }
        assert(faces@.subrange(0, faces@.len() as int) =~= faces@);
        let fig = Figure {
            figure_name: name.to_string(),
            num_faces: computed_faces,
            faces: faces,
            blocks_per_face: blocks_per_face,
            max_face_width: max_width,
        };
        fig
    }

    pub fn max_width(&self) -> (r: u8)
        ensures
            r == self.mw(),
    {
        self.max_face_width
    }

    pub fn name(&self) -> (r: &String)
        ensures
            r@ == self.name_spec(),
    {
        &self.figure_name
    }

    pub fn num_faces(&self) -> (r: u8)
        ensures
            r == self.nf(),
    {
        self.num_faces
    }

    pub fn get_face(&self, face_index: usize) -> (r: &[(u8, u8, u8)])
        requires
            self.wf(),
        ensures
            r@ == self.face_spec((face_index as int) % self.nf()),
    {
        let len = self.faces.len();
        let face_index = face_index % self.num_faces as usize;
        let bpf = self.blocks_per_face as usize;
        assert(face_index * bpf + bpf <= self.faces@.len()) by (nonlinear_arith)
            requires
                face_index < self.nf(),
                bpf == self.bpf(),
                self.faces@.len() == self.nf() * self.bpf(),
        ;
        assert(face_index * bpf + bpf == (face_index + 1) * bpf) by (nonlinear_arith);
        let start_index = face_index * bpf;
        vstd::slice::slice_subrange(self.faces.as_slice(), start_index, start_index + bpf)
    }

    /// The faces, one slice per face.
    pub fn iter_faces(&self) -> (r: Vec<&[(u8, u8, u8)]>)
        requires
            self.wf(),
        ensures
            r@.len() == self.nf(),
            forall|i: int| 0 <= i < r@.len() ==> (#[trigger] r@[i])@ == self.face_spec(i),
    {
        let mut r: Vec<&[(u8, u8, u8)]> = Vec::new();
        let n = self.num_faces as usize;
        let mut i: usize = 0;
        while i < n
            invariant
                self.wf(),
                n == self.nf(),
                0 <= i <= n,
                r@.len() == i,
                forall|k: int| 0 <= k < i ==> (#[trigger] r@[k])@ == self.face_spec(k),
            decreases n - i,
        {
            assert((i as int) % (n as int) == i) by {
                vstd::arithmetic::div_mod::lemma_small_mod(i as nat, n as nat);
            }
            r.push(self.get_face(i));
            i = i + 1;
        }
        r
    }

    //
    // Place figure in playfield
    //
    pub fn place(&self, pf: &mut Playfield, pos: &Position)
        requires
            self.wf(),
            old(pf).wf(),
            face_fits_at((pos.x as int, pos.y as int), self.face_for(pos.z)),
            face_in(old(pf).grid(), (pos.x as int, pos.y as int), self.face_for(pos.z)),
        ensures
            final(pf).wf(),
            final(pf).same_frame(old(pf)),
            final(pf).grid() == laid(old(pf).grid(), (pos.x as int, pos.y as int), self.face_for(pos.z), false),
    {
        pf.place(pos.xy(), self.get_face(pos.dir() as usize));
    }

    //
    // Remove figure from playfield
    //
    pub fn remove(&self, pf: &mut Playfield, pos: &Position)
        requires
            self.wf(),
            old(pf).wf(),
            face_fits_at((pos.x as int, pos.y as int), self.face_for(pos.z)),
            face_in(old(pf).grid(), (pos.x as int, pos.y as int), self.face_for(pos.z)),
        ensures
            final(pf).wf(),
            final(pf).same_frame(old(pf)),
            final(pf).grid() == laid(old(pf).grid(), (pos.x as int, pos.y as int), self.face_for(pos.z), true),
    {
        pf.remove(pos.xy(), self.get_face(pos.dir() as usize));
    }

    pub fn test_collision(&self, pf: &Playfield, pos: &Position) -> (r: bool)
        requires
            self.wf(),
            pf.wf(),
            face_fits_at((pos.x as int, pos.y as int), self.face_for(pos.z)),
        ensures
            r == exists|i: int|
                0 <= i < self.face_for(pos.z).len() && (#[trigger] pf.block(
                    pos.x + self.face_for(pos.z)[i].0,
                    pos.y + self.face_for(pos.z)[i].1,
                )) is Filled,
    {
        pf.test_collision(pos.xy(), self.get_face(pos.dir() as usize))
    }
}

} // verus!
