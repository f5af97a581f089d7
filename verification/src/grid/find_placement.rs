use vstd::prelude::*;

use crate::cells::Cells;
use crate::grid::block::Block;
use crate::grid::figure::Figure;
use crate::grid::figure_pos::FigurePos;
use crate::grid::playfield::Playfield;
use crate::grid::pos_dir::PosDir;
use crate::grid::matrix3::{pt3, Matrix3};
use crate::grid::vec3::Vec3;
use crate::movement::Movement;
use crate::cells::Cells3;

verus! {

/// The face collides at column `x`, row `y`, and the row above it is the
/// top row or free: the figure comes to rest at row `y - 1`.
pub open spec fn rests_above(pf: &Playfield, face: Cells<Block>, x: int, y: int) -> bool {
    &&& y >= 1
    &&& pf.collides(face, (x, y))
    &&& (y == 1 || !pf.collides(face, (x, y - 1)))
}

/// The resting places found in column `x` scanning rows `1..k`.
pub open spec fn column_placements(pf: &Playfield, face: Cells<Block>, x: int, dir: int, k: int) -> Seq<
    (int, int, int),
>
    decreases k,
{
    if k <= 1 {
        Seq::empty()
    } else {
        column_placements(pf, face, x, dir, k - 1) + if rests_above(pf, face, x, k - 1) {
            seq![(x, k - 2, dir)]
        } else {
            Seq::empty()
        }
    }
}

/// The resting places of one face over columns `lo..hi`.
pub open spec fn face_placements(pf: &Playfield, face: Cells<Block>, dir: int, lo: int, hi: int) -> Seq<
    (int, int, int),
>
    decreases hi - lo,
{
    if hi <= lo {
        Seq::empty()
    } else {
        face_placements(pf, face, dir, lo, hi - 1) + column_placements(pf, face, hi - 1, dir, pf.h())
    }
}

/// The resting places of the first `d` faces of a figure, each over the
/// columns from minus its width to the playfield's width.
pub open spec fn quick_placements(pf: &Playfield, fig: &Figure, d: int) -> Seq<(int, int, int)>
    decreases d,
{
    if d <= 0 {
        Seq::empty()
    } else {
        let face = fig.faces_spec()[d - 1];
        quick_placements(pf, fig, d - 1) + face_placements(pf, face, d - 1, -face.width(), pf.w())
    }
}

/// Two lists without repeats and without a common entry join into one
/// without repeats.
proof fn lemma_join_distinct<A>(a: Seq<A>, b: Seq<A>)
    requires
        a.no_duplicates(),
        b.no_duplicates(),
        forall|x: A| a.contains(x) ==> !b.contains(x),
    ensures
        (a + b).no_duplicates(),
{
    let c = a + b;
    assert forall|i: int, j: int| 0 <= i < c.len() && 0 <= j < c.len() && i != j implies c[i] != c[j] by {
        if i < a.len() && j >= a.len() {
            assert(c[i] == a[i] && c[j] == b[j - a.len()]);
            assert(a.contains(a[i]));
            assert(b.contains(b[j - a.len()]));
        } else if j < a.len() && i >= a.len() {
            assert(c[j] == a[j] && c[i] == b[i - a.len()]);
            assert(a.contains(a[j]));
            assert(b.contains(b[i - a.len()]));
        } else if i < a.len() {
            assert(c[i] == a[i] && c[j] == a[j]);
        } else {
            assert(c[i] == b[i - a.len()] && c[j] == b[j - a.len()]);
        }
    }
}

/// A column scanned down to row `k` lists, from the top, every row above
/// a collision of the face whose own row is the top row or free, and no
/// other place: one for each such row, however many a column holds.
pub proof fn law_column_placements(pf: &Playfield, face: Cells<Block>, x: int, dir: int, k: int)
    ensures
        forall|p: (int, int, int)|
            #[trigger] column_placements(pf, face, x, dir, k).contains(p) <==> {
                &&& p.0 == x
                &&& p.2 == dir
                &&& 0 <= p.1
                &&& p.1 + 1 < k
                &&& pf.collides(face, (x, p.1 + 1))
                &&& (p.1 == 0 || !pf.collides(face, (x, p.1)))
            },
        forall|i: int, j: int|
            0 <= i < j < column_placements(pf, face, x, dir, k).len() ==> (#[trigger] column_placements(
                pf,
                face,
                x,
                dir,
                k,
            )[i]).1 < (#[trigger] column_placements(pf, face, x, dir, k)[j]).1,
        column_placements(pf, face, x, dir, k).no_duplicates(),
    decreases k,
{
    if k > 1 {
        law_column_placements(pf, face, x, dir, k - 1);
        let prev = column_placements(pf, face, x, dir, k - 1);
        let cur = column_placements(pf, face, x, dir, k);
        if rests_above(pf, face, x, k - 1) {
            let e = (x, k - 2, dir);
            assert(cur == prev + seq![e]);
            assert forall|p: (int, int, int)| #[trigger] cur.contains(p) <==> (prev.contains(p) || p == e) by {
                if cur.contains(p) {
                    let i = choose|i: int| 0 <= i < cur.len() && cur[i] == p;
                    if i < prev.len() {
                        assert(prev[i] == p);
                    }
                }
                if prev.contains(p) {
                    let i = choose|i: int| 0 <= i < prev.len() && prev[i] == p;
                    assert(cur[i] == p);
                }
                if p == e {
                    assert(cur[prev.len() as int] == e);
                }
            }
            assert forall|i: int, j: int| 0 <= i < j < cur.len() implies (#[trigger] cur[i]).1 < (#[trigger] cur[j]).1 by {
                if j < prev.len() {
                    assert(cur[i] == prev[i] && cur[j] == prev[j]);
                } else {
                    assert(cur[i] == prev[i]);
                    assert(prev.contains(prev[i]));
                }
            }
        } else {
            assert(cur =~= prev);
        }
    }
    let c = column_placements(pf, face, x, dir, k);
    assert forall|i: int, j: int| 0 <= i < c.len() && 0 <= j < c.len() && i != j implies c[i] != c[j] by {
        if i < j {
            assert(c[i].1 < c[j].1);
        } else {
            assert(c[j].1 < c[i].1);
        }
    }
}

/// The places of one face over columns `lo..hi`: every column's resting
/// places, and nothing else.
pub proof fn law_face_placements(pf: &Playfield, face: Cells<Block>, dir: int, lo: int, hi: int)
    ensures
        forall|p: (int, int, int)|
            #[trigger] face_placements(pf, face, dir, lo, hi).contains(p) <==> {
                &&& lo <= p.0 < hi
                &&& p.2 == dir
                &&& 0 <= p.1
                &&& p.1 + 1 < pf.h()
                &&& pf.collides(face, (p.0, p.1 + 1))
                &&& (p.1 == 0 || !pf.collides(face, (p.0, p.1)))
            },
        face_placements(pf, face, dir, lo, hi).no_duplicates(),
    decreases hi - lo,
{
    if hi > lo {
        law_face_placements(pf, face, dir, lo, hi - 1);
        law_column_placements(pf, face, hi - 1, dir, pf.h());
        let a = face_placements(pf, face, dir, lo, hi - 1);
        let b = column_placements(pf, face, hi - 1, dir, pf.h());
        assert forall|p: (int, int, int)| #[trigger] (a + b).contains(p) <==> (a.contains(p) || b.contains(p)) by {
            if (a + b).contains(p) {
                let i = choose|i: int| 0 <= i < (a + b).len() && (a + b)[i] == p;
                if i < a.len() {
                    assert(a[i] == p);
                } else {
                    assert(b[i - a.len()] == p);
                }
            }
            if a.contains(p) {
                let i = choose|i: int| 0 <= i < a.len() && a[i] == p;
                assert((a + b)[i] == p);
            }
            if b.contains(p) {
                let i = choose|i: int| 0 <= i < b.len() && b[i] == p;
                assert((a + b)[a.len() + i] == p);
            }
        }
        assert forall|p: (int, int, int)| a.contains(p) implies !b.contains(p) by {
            assert(a.contains(p) ==> p.0 < hi - 1);
        }
        lemma_join_distinct(a, b);
    } else {
        assert forall|p: (int, int, int)| !#[trigger] face_placements(pf, face, dir, lo, hi).contains(p) by {}
        assert(face_placements(pf, face, dir, lo, hi).len() == 0);
    }
}

/// The quick search finds, for each of the first `d` faces and each
/// column from minus the face's width to the playfield's width, every row
/// where the face rests when dropped straight down: right above a
/// collision, on the top row or a free one. Nothing else is found.
pub proof fn law_quick_placements(pf: &Playfield, fig: &Figure, d: int)
    ensures
        forall|p: (int, int, int)|
            #[trigger] quick_placements(pf, fig, d).contains(p) <==> {
                &&& 0 <= p.2 < d
                &&& -fig.faces_spec()[p.2].width() <= p.0 < pf.w()
                &&& 0 <= p.1
                &&& p.1 + 1 < pf.h()
                &&& pf.collides(fig.faces_spec()[p.2], (p.0, p.1 + 1))
                &&& (p.1 == 0 || !pf.collides(fig.faces_spec()[p.2], (p.0, p.1)))
            },
        quick_placements(pf, fig, d).no_duplicates(),
    decreases d,
{
    if d > 0 {
        law_quick_placements(pf, fig, d - 1);
        let face = fig.faces_spec()[d - 1];
        law_face_placements(pf, face, d - 1, -face.width(), pf.w());
        let a = quick_placements(pf, fig, d - 1);
        let b = face_placements(pf, face, d - 1, -face.width(), pf.w());
        assert forall|p: (int, int, int)| #[trigger] (a + b).contains(p) <==> (a.contains(p) || b.contains(p)) by {
            if (a + b).contains(p) {
                let i = choose|i: int| 0 <= i < (a + b).len() && (a + b)[i] == p;
                if i < a.len() {
                    assert(a[i] == p);
                } else {
                    assert(b[i - a.len()] == p);
                }
            }
            if a.contains(p) {
                let i = choose|i: int| 0 <= i < a.len() && a[i] == p;
                assert((a + b)[i] == p);
            }
            if b.contains(p) {
                let i = choose|i: int| 0 <= i < b.len() && b[i] == p;
                assert((a + b)[a.len() + i] == p);
            }
        }
        assert forall|p: (int, int, int)| a.contains(p) implies !b.contains(p) by {
            assert(a.contains(p) ==> p.2 < d - 1);
        }
        lemma_join_distinct(a, b);
    } else {
        assert forall|p: (int, int, int)| !#[trigger] quick_placements(pf, fig, d).contains(p) by {}
        assert(quick_placements(pf, fig, d).len() == 0);
    }
}

pub open spec fn coords_of(s: Seq<PosDir>) -> Seq<(int, int, int)> {
    s.map_values(|p: PosDir| p.coords())
}

/// All places where the figure comes to rest when dropped straight down
/// from the top row, for every face and column: for each column, each
/// free position (or the top row) right above a colliding one.
pub fn find_placement_quick(pf: &Playfield, fig_pos: &FigurePos) -> (r: Vec<PosDir>)
    requires
        pf.wf(),
        fig_pos.wf(),
        fig_pos.fig_spec().fits_at(pf.w(), pf.h()),
    ensures
        coords_of(r@) == quick_placements(pf, &fig_pos.fig_spec(), fig_pos.fig_spec().num_faces()),
        forall|p: (int, int, int)|
            #[trigger] coords_of(r@).contains(p) <==> {
                &&& 0 <= p.2 < fig_pos.fig_spec().num_faces()
                &&& -fig_pos.fig_spec().faces_spec()[p.2].width() <= p.0 < pf.w()
                &&& 0 <= p.1
                &&& p.1 + 1 < pf.h()
                &&& pf.collides(fig_pos.fig_spec().faces_spec()[p.2], (p.0, p.1 + 1))
                &&& (p.1 == 0 || !pf.collides(fig_pos.fig_spec().faces_spec()[p.2], (p.0, p.1)))
            },
        coords_of(r@).no_duplicates(),
{
    let fig = fig_pos.get_figure();
    proof {
        pf.lemma_wf();
    }
    let mut placements: Vec<PosDir> = Vec::new();
    let faces = fig.faces();
    let n = faces.len();
    let pw = pf.width() as i32;
    let ph = pf.height();
    let mut dir: usize = 0;
    while dir < n
        invariant
            pf.wf(),
            fig.wf(),
            n == fig.num_faces(),
            n <= i32::MAX,
            fig.fits_at(pf.w(), pf.h()),
            pw == pf.w(),
            ph == pf.h(),
            ph <= i32::MAX,
            0 <= pw,
            faces@.len() == n,
            forall|i: int|
                0 <= i < n ==> (#[trigger] faces@[i])@ == fig.faces_spec()[i] && faces@[i].wf(),
            0 <= dir <= n,
            coords_of(placements@) == quick_placements(pf, fig, dir as int),
        decreases n - dir,
    {
        let ghost face = fig.faces_spec()[dir as int];
        let fig_face_width = faces[dir].width() as i32;
        let ghost base = coords_of(placements@);
        let mut x: i32 = -fig_face_width;
        proof {
            assert(faces@[dir as int].wf());
            assert(face.width() >= 0);
            assert(face_placements(pf, face, dir as int, -face.width(), x as int) =~= Seq::empty());
            assert(coords_of(placements@) =~= base);
        }
        while x < pw
            invariant
                pf.wf(),
                fig.wf(),
                n == fig.num_faces(),
                n <= i32::MAX,
                fig.fits_at(pf.w(), pf.h()),
                pw == pf.w(),
                ph == pf.h(),
                ph <= i32::MAX,
                0 <= dir < n,
                face == fig.faces_spec()[dir as int],
                fig_face_width == face.width(),
                -face.width() <= x <= pw,
                base == quick_placements(pf, fig, dir as int),
                coords_of(placements@) == base + face_placements(
                    pf,
                    face,
                    dir as int,
                    -face.width(),
                    x as int,
                ),
            decreases pw - x,
        {
            let ghost before = coords_of(placements@);
            let mut last_pos: Option<PosDir> = Some(PosDir::new(x, 0, dir as i32));
            let mut y: u32 = 1;
            proof {
                assert(column_placements(pf, face, x as int, dir as int, 1) =~= Seq::empty());
                assert(coords_of(placements@) =~= before);
            }
            while y < ph
                invariant
                    pf.wf(),
                    fig.wf(),
                    n == fig.num_faces(),
                    n <= i32::MAX,
                    fig.fits_at(pf.w(), pf.h()),
                    pw == pf.w(),
                    ph == pf.h(),
                    ph <= i32::MAX,
                    0 <= dir < n,
                    face == fig.faces_spec()[dir as int],
                    -face.width() <= x < pw,
                    y <= ph || y == 1,
                    y >= 1,
                    coords_of(placements@) == before + column_placements(
                        pf,
                        face,
                        x as int,
                        dir as int,
                        y as int,
                    ),
                    match last_pos {
                        Some(p) => p.coords() == (x as int, y - 1, dir as int) && (y == 1 || !pf.collides(
                            face,
                            (x as int, y - 1),
                        )),
                        None => y > 1 && pf.collides(face, (x as int, y - 1)),
                    },
                decreases ph - y,
            {
                let tmp_pos = PosDir::new(x, y as i32, dir as i32);
                proof {
                    assert((dir as i32) as usize == dir);
                    vstd::arithmetic::div_mod::lemma_small_mod(dir as nat, n as nat);
                    assert(fig.face_for(dir as i32) == face);
                }
                let ghost cp = coords_of(placements@);
                if fig.test_collision(pf, &tmp_pos) {
                    if last_pos.is_some() {
                        placements.push(last_pos.unwrap());
                    }
                    last_pos = None;
                } else {
                    last_pos = Some(tmp_pos);
                }
                proof {
                    let col = column_placements(pf, face, x as int, dir as int, y as int);
                    let col2 = column_placements(pf, face, x as int, dir as int, y + 1);
                    if rests_above(pf, face, x as int, y as int) {
                        assert(col2 == col + seq![(x as int, y - 1, dir as int)]);
                        assert(coords_of(placements@) =~= cp.push((x as int, y - 1, dir as int)));
                    } else {
                        assert(col2 =~= col);
                        assert(coords_of(placements@) =~= cp);
                    }
                }
                y = y + 1;
            }
            proof {
                if ph == 0 {
                    assert(column_placements(pf, face, x as int, dir as int, 0) =~= Seq::empty());
                    assert(column_placements(pf, face, x as int, dir as int, 1) =~= Seq::empty());
                    assert(y == 1);
                    assert(pf.h() == 0);
                } else {
                    assert(y == ph);
                    assert(y as int == pf.h());
                }
                assert(column_placements(pf, face, x as int, dir as int, y as int) == column_placements(
                    pf,
                    face,
                    x as int,
                    dir as int,
                    pf.h(),
                ));
                assert(face_placements(pf, face, dir as int, -face.width(), x + 1) == face_placements(
                    pf,
                    face,
                    dir as int,
                    -face.width(),
                    x as int,
                ) + column_placements(pf, face, x as int, dir as int, pf.h()));
                assert(coords_of(placements@) =~= base + face_placements(
                    pf,
                    face,
                    dir as int,
                    -face.width(),
                    x + 1,
                ));
            }
            x = x + 1;
        }
        dir = dir + 1;
    }
    proof {
        law_quick_placements(pf, fig, n as int);
    }
    placements
}


/// The face has at least one set block.
pub open spec fn has_block(face: Cells<Block>) -> bool {
    exists|f: (int, int)| face.contains(f) && #[trigger] face.at(f).occupied()
}

/// Every face of the figure has a set block.
pub open spec fn faces_have_blocks(fig: &Figure) -> bool {
    forall|i: int| 0 <= i < fig.num_faces() ==> has_block(#[trigger] fig.faces_spec()[i])
}

/// The figure fits at column `p.0`, row `p.1` in direction `p.2` without
/// colliding.
pub open spec fn free(pf: &Playfield, fig: &Figure, p: (int, int, int)) -> bool {
    &&& i32::MIN <= p.0 <= i32::MAX
    &&& i32::MIN <= p.1 <= i32::MAX
    &&& i32::MIN <= p.2 <= i32::MAX
    &&& !pf.collides(fig.face_for(p.2 as i32), (p.0, p.1))
}

/// One step of the search: left, right, down, or a clockwise turn while
/// the direction stays below the number of faces.
pub open spec fn step_ok(n: int, p: (int, int, int), q: (int, int, int)) -> bool {
    ||| q == (p.0 - 1, p.1, p.2)
    ||| q == (p.0 + 1, p.1, p.2)
    ||| q == (p.0, p.1 + 1, p.2)
    ||| (q == (p.0, p.1, p.2 + 1) && p.2 + 1 < n)
}

/// A sequence of steps through places where the figure fits.
pub open spec fn is_route(pf: &Playfield, fig: &Figure, s: Seq<(int, int, int)>) -> bool {
    &&& s.len() >= 1
    &&& forall|i: int| 0 <= i < s.len() ==> free(pf, fig, #[trigger] s[i])
    &&& forall|i: int, j: int|
        0 <= i && j == i + 1 && j < s.len() ==> step_ok(fig.num_faces(), #[trigger] s[i], #[trigger] s[j])
}

/// The figure can be brought from `start` to `p` by steps.
pub open spec fn reachable(pf: &Playfield, fig: &Figure, start: (int, int, int), p: (int, int, int)) -> bool {
    exists|s: Seq<(int, int, int)>| #[trigger] is_route(pf, fig, s) && s[0] == start && s[s.len() - 1] == p
}

/// The figure can be brought from `start` to `p` in at most `k` steps
/// through places where it fits.
pub open spec fn reach_within(pf: &Playfield, fig: &Figure, start: (int, int, int), p: (int, int, int), k: nat) -> bool {
    exists|s: Seq<(int, int, int)>|
        #[trigger] is_route(pf, fig, s) && s[0] == start && s[s.len() - 1] == p && s.len() <= k + 1
}

/// Places found in the order of a breadth-first search: a place listed
/// later takes at least as many steps from `start` as one listed earlier.
pub open spec fn fewest_steps_first(pf: &Playfield, fig: &Figure, start: (int, int, int), r: Seq<PosDir>) -> bool {
    forall|i: int, j: int, k: nat|
        #![trigger r[i], reach_within(pf, fig, start, r[j].coords(), k)]
        0 <= i < j < r.len() && reach_within(pf, fig, start, r[j].coords(), k) ==> reach_within(
            pf,
            fig,
            start,
            r[i].coords(),
            k,
        )
}

proof fn lemma_reach_within_mono(pf: &Playfield, fig: &Figure, st: (int, int, int), p: (int, int, int), k: nat, k2: nat)
    requires
        reach_within(pf, fig, st, p, k),
        k <= k2,
    ensures
        reach_within(pf, fig, st, p, k2),
{
}

/// One more step from a place reached within `k` steps.
proof fn lemma_reach_within_step(
    pf: &Playfield,
    fig: &Figure,
    st: (int, int, int),
    p: (int, int, int),
    q: (int, int, int),
    k: nat,
)
    requires
        reach_within(pf, fig, st, p, k),
        step_ok(fig.num_faces(), p, q),
        free(pf, fig, q),
    ensures
        reach_within(pf, fig, st, q, k + 1),
{
    let s = choose|s: Seq<(int, int, int)>|
        #[trigger] is_route(pf, fig, s) && s[0] == st && s[s.len() - 1] == p && s.len() <= k + 1;
    let s2 = s.push(q);
    assert forall|i: int| 0 <= i < s2.len() implies free(pf, fig, #[trigger] s2[i]) by {
        if i < s.len() {
            assert(s2[i] == s[i]);
        }
    }
    assert forall|i: int, j: int|
        0 <= i && j == i + 1 && j < s2.len() implies step_ok(fig.num_faces(), #[trigger] s2[i], #[trigger] s2[j]) by {
        if j < s.len() {
            assert(s2[i] == s[i] && s2[j] == s[j]);
            assert(step_ok(fig.num_faces(), s[i], s[j]));
        }
    }
    assert(is_route(pf, fig, s2));
}

/// The labels `d` of the queue `m`, with `m[head]` the place at hand: each
/// place is reached within its label, the labels never fall along the
/// queue, and none passes the label at hand by more than one.
#[verifier::opaque]
spec fn labels_ok(pf: &Playfield, fig: &Figure, st: (int, int, int), m: Seq<PosDir>, d: Seq<nat>, head: int) -> bool {
    &&& d.len() == m.len()
    &&& forall|i: int| 0 <= i < m.len() ==> reach_within(pf, fig, st, m[i].coords(), #[trigger] d[i])
    &&& forall|i: int, j: int| 0 <= i <= j < m.len() ==> #[trigger] d[i] <= #[trigger] d[j]
    &&& head < m.len() ==> forall|j: int| 0 <= j < m.len() ==> #[trigger] d[j] <= d[head] + 1
}

/// Every free place one step from one of the first `upto` places of the
/// queue is queued, with a label at most one above that place's.
#[verifier::opaque]
spec fn labels_closed(pf: &Playfield, fig: &Figure, m: Seq<PosDir>, d: Seq<nat>, upto: int) -> bool {
    forall|i: int, q: (int, int, int)|
        0 <= i < upto && #[trigger] step_ok(fig.num_faces(), m[i].coords(), q) && free(pf, fig, q)
            ==> exists|j: int| 0 <= j < m.len() && m[j].coords() == q && d[j] <= d[i] + 1
}

/// A probe that queued a place one step from the place at hand gives it
/// the label at hand plus one.
proof fn lemma_label_probe(
    pf: &Playfield,
    fig: &Figure,
    st: (int, int, int),
    m: Seq<PosDir>,
    d: Seq<nat>,
    head: int,
    m2: Seq<PosDir>,
    q: PosDir,
) -> (d2: Seq<nat>)
    requires
        labels_ok(pf, fig, st, m, d, head),
        0 <= head < m.len(),
        m2 == m || (m2 == m.push(q) && step_ok(fig.num_faces(), m[head].coords(), q.coords()) && free(
            pf,
            fig,
            q.coords(),
        )),
    ensures
        labels_ok(pf, fig, st, m2, d2, head),
        d2.len() == m2.len(),
        d2.len() >= d.len(),
        forall|i: int| 0 <= i < d.len() ==> d2[i] == d[i],
{
    reveal(labels_ok);
    if m2 == m {
        d
    } else {
        let l = (d[head] + 1) as nat;
        let d2 = d.push(l);
        let c = m[head].coords();
        assert(reach_within(pf, fig, st, c, d[head]));
        lemma_reach_within_step(pf, fig, st, c, q.coords(), d[head]);
        assert(m2[m.len() as int] == q);
        assert forall|i: int| 0 <= i < m2.len() implies reach_within(pf, fig, st, m2[i].coords(), #[trigger] d2[i]) by {
            if i < m.len() {
                assert(m2[i] == m[i] && d2[i] == d[i]);
            }
        }
        assert forall|i: int, j: int| 0 <= i <= j < m2.len() implies #[trigger] d2[i] <= #[trigger] d2[j] by {
            if j == m.len() {
                if i < m.len() {
                    assert(d[i] <= d[head] + 1);
                }
            } else {
                assert(d2[i] == d[i] && d2[j] == d[j]);
            }
        }
        assert forall|j: int| 0 <= j < m2.len() implies #[trigger] d2[j] <= d2[head] + 1 by {
            if j < m.len() {
                assert(d2[j] == d[j]);
            }
        }
        d2
    }
}

/// Expanding the place at `head` keeps every expanded place's neighbours
/// queued with a label at most one above its own.
proof fn lemma_labels_close(
    pf: &Playfield,
    fig: &Figure,
    st: (int, int, int),
    m0: Seq<PosDir>,
    d0: Seq<nat>,
    m: Seq<PosDir>,
    d: Seq<nat>,
    head: int,
)
    requires
        0 <= head < m0.len() <= m.len(),
        d0.len() == m0.len(),
        d.len() >= d0.len(),
        forall|i: int| 0 <= i < m0.len() ==> m[i] == m0[i],
        forall|i: int| 0 <= i < d0.len() ==> d[i] == d0[i],
        labels_ok(pf, fig, st, m, d, head),
        labels_closed(pf, fig, m0, d0, head),
        forall|q: (int, int, int)|
            #[trigger] step_ok(fig.num_faces(), m[head].coords(), q) && free(pf, fig, q) ==> exists|j: int|
                0 <= j < m.len() && m[j].coords() == q,
    ensures
        labels_ok(pf, fig, st, m, d, head + 1),
        labels_closed(pf, fig, m, d, head + 1),
{
    reveal(labels_ok);
    reveal(labels_closed);
    assert forall|i: int, q: (int, int, int)|
        0 <= i < head + 1 && #[trigger] step_ok(fig.num_faces(), m[i].coords(), q) && free(pf, fig, q)
            implies exists|j: int| 0 <= j < m.len() && m[j].coords() == q && d[j] <= d[i] + 1 by {
        if i < head {
            assert(m[i] == m0[i]);
            assert(d[i] == d0[i]);
            assert(step_ok(fig.num_faces(), m0[i].coords(), q));
            let j0 = choose|j: int| 0 <= j < m0.len() && m0[j].coords() == q && d0[j] <= d0[i] + 1;
            assert(m[j0] == m0[j0] && d[j0] == d0[j0]);
        } else {
            let j0 = choose|j: int| 0 <= j < m.len() && m[j].coords() == q;
            assert(d[j0] <= d[head] + 1);
        }
    }
}

/// Once every queued place has been expanded, each place reached within
/// `k` steps is queued with a label of at most `k`.
proof fn lemma_labels_bound(
    pf: &Playfield,
    fig: &Figure,
    st: (int, int, int),
    m: Seq<PosDir>,
    d: Seq<nat>,
    p: (int, int, int),
    k: nat,
)
    requires
        d.len() == m.len(),
        m.len() >= 1,
        m[0].coords() == st,
        d[0] == 0,
        labels_closed(pf, fig, m, d, m.len() as int),
        reach_within(pf, fig, st, p, k),
    ensures
        exists|j: int| 0 <= j < m.len() && m[j].coords() == p && d[j] <= k,
    decreases k,
{
    reveal(labels_closed);
    let s = choose|s: Seq<(int, int, int)>|
        #[trigger] is_route(pf, fig, s) && s[0] == st && s[s.len() - 1] == p && s.len() <= k + 1;
    if s.len() == 1 {
        assert(m[0].coords() == p && d[0] <= k);
    } else {
        let s1 = s.drop_last();
        let c = s[s.len() - 2];
        assert(is_route(pf, fig, s1)) by {
            assert forall|i: int| 0 <= i < s1.len() implies free(pf, fig, #[trigger] s1[i]) by {
                assert(s1[i] == s[i]);
            }
            assert forall|i: int, j: int|
                0 <= i && j == i + 1 && j < s1.len() implies step_ok(fig.num_faces(), #[trigger] s1[i], #[trigger] s1[j]) by {
                assert(s1[i] == s[i] && s1[j] == s[j]);
                assert(step_ok(fig.num_faces(), s[i], s[j]));
            }
        }
        assert(s1[0] == st && s1[s1.len() - 1] == c);
        assert(reach_within(pf, fig, st, c, (k - 1) as nat));
        lemma_labels_bound(pf, fig, st, m, d, c, (k - 1) as nat);
        let a = choose|j: int| 0 <= j < m.len() && m[j].coords() == c && d[j] <= k - 1;
        let ia = s.len() - 2;
        assert(step_ok(fig.num_faces(), s[ia], s[ia + 1]));
        assert(free(pf, fig, s[ia + 1]));
        assert(step_ok(fig.num_faces(), m[a].coords(), p) && free(pf, fig, p));
        let b = choose|j: int| 0 <= j < m.len() && m[j].coords() == p && d[j] <= d[a] + 1;
        assert(m[b].coords() == p && d[b] <= k);
    }
}

/// Once every queued place has been expanded, the resting places come in
/// the order of a breadth-first search.
proof fn lemma_labels_order(pf: &Playfield, fig: &Figure, st: (int, int, int), m: Seq<PosDir>, d: Seq<nat>, r: Seq<PosDir>)
    requires
        m.len() >= 1,
        m[0].coords() == st,
        d[0] == 0,
        labels_ok(pf, fig, st, m, d, m.len() as int),
        labels_closed(pf, fig, m, d, m.len() as int),
        forall|a: int, b: int| 0 <= a < b < m.len() ==> m[a] != m[b],
        r == resting_among(pf, fig, m, m.len() as int),
    ensures
        fewest_steps_first(pf, fig, st, r),
{
    reveal(labels_ok);
    assert forall|i: int, j: int, k: nat|
        #![trigger r[i], reach_within(pf, fig, st, r[j].coords(), k)]
        0 <= i < j < r.len() && reach_within(pf, fig, st, r[j].coords(), k) implies reach_within(
        pf,
        fig,
        st,
        r[i].coords(),
        k,
    ) by {
        let ab = lemma_resting_order(pf, fig, m, m.len() as int, i, j);
        lemma_labels_bound(pf, fig, st, m, d, r[j].coords(), k);
        let c = choose|c: int| 0 <= c < m.len() && m[c].coords() == r[j].coords() && d[c] <= k;
        assert(m[c] == m[ab.1]);
        if c != ab.1 {
            assert(m[c] != m[ab.1]);
        }
        assert(d[ab.0] <= d[ab.1]);
        assert(reach_within(pf, fig, st, m[ab.0].coords(), d[ab.0]));
        lemma_reach_within_mono(pf, fig, st, m[ab.0].coords(), d[ab.0], k);
    }
}

/// Any two resting places come from places of `s` in the same order.
proof fn lemma_resting_order(pf: &Playfield, fig: &Figure, s: Seq<PosDir>, k: int, i: int, j: int) -> (ab: (int, int))
    requires
        0 <= k <= s.len(),
        0 <= i < j < resting_among(pf, fig, s, k).len(),
    ensures
        0 <= ab.0 <= ab.1 < k,
        resting_among(pf, fig, s, k)[i] == s[ab.0],
        resting_among(pf, fig, s, k)[j] == s[ab.1],
    decreases k,
{
    let prev = resting_among(pf, fig, s, k - 1);
    let cur = resting_among(pf, fig, s, k);
    if j < prev.len() {
        assert(cur[i] == prev[i] && cur[j] == prev[j]);
        lemma_resting_order(pf, fig, s, k - 1, i, j)
    } else {
        assert(cur[i] == prev[i]);
        let a = lemma_resting_member(pf, fig, s, k - 1, i);
        (a, k - 1)
    }
}

/// The figure fits at `p` and collides one row further down.
pub open spec fn rests(pf: &Playfield, fig: &Figure, p: (int, int, int)) -> bool {
    free(pf, fig, p) && !free(pf, fig, (p.0, p.1 + 1, p.2))
}

/// The places of `s`, among its first `k`, where the figure rests.
pub open spec fn resting_among(pf: &Playfield, fig: &Figure, s: Seq<PosDir>, k: int) -> Seq<PosDir>
    decreases k,
{
    if k <= 0 {
        Seq::empty()
    } else {
        resting_among(pf, fig, s, k - 1) + if rests(pf, fig, s[k - 1].coords()) {
            seq![s[k - 1]]
        } else {
            Seq::empty()
        }
    }
}

pub open spec fn seen3(v: Cells3<bool>, q: (int, int, int)) -> bool {
    v.at(q)
}

/// The number of unmarked cells of a box of marks.
pub open spec fn unseen3(s: Seq<bool>) -> nat
    decreases s.len(),
{
    if s.len() == 0 {
        0
    } else {
        unseen3(s.drop_last()) + if s.last() {
            0nat
        } else {
            1nat
        }
    }
}

proof fn lemma_unseen3_mark(s: Seq<bool>, i: int)
    requires
        0 <= i < s.len(),
        !s[i],
    ensures
        unseen3(s.update(i, true)) + 1 == unseen3(s),
    decreases s.len(),
{
    let t = s.update(i, true);
    if i == s.len() - 1 {
        assert(t.drop_last() =~= s.drop_last());
    } else {
        assert(t.drop_last() =~= s.drop_last().update(i, true));
        lemma_unseen3_mark(s.drop_last(), i);
    }
}

/// The places a search probes from `p` lie inside the box of marks.
pub open spec fn probes_in(v: Cells3<bool>, pf: &Playfield, fig: &Figure, p: (int, int, int)) -> bool {
    &&& v.contains((p.0 - 1, p.1, p.2))
    &&& v.contains((p.0 + 1, p.1, p.2))
    &&& (p.2 + 1 < fig.num_faces() ==> v.contains((p.0, p.1, p.2 + 1)))
    &&& (free(pf, fig, (p.0, p.1 + 1, p.2)) ==> v.contains((p.0, p.1 + 1, p.2)))
}

/// The highest direction a search from direction `z0` can reach.
pub open spec fn top_dir(fig: &Figure, z0: int) -> int {
    if z0 > fig.num_faces() - 1 {
        z0
    } else {
        fig.num_faces() - 1
    }
}

/// The box of marks holds every place a search from `start` probes: the
/// places next to each place it reaches.
pub open spec fn box_ok(v: Cells3<bool>, pf: &Playfield, fig: &Figure, start: (int, int, int)) -> bool {
    forall|p: (int, int, int)|
        #[trigger] reachable(pf, fig, start, p) && start.1 <= p.1 && start.2 <= p.2 <= top_dir(fig, start.2)
            ==> probes_in(v, pf, fig, p)
}

proof fn lemma_route_step(pf: &Playfield, fig: &Figure, start: (int, int, int), p: (int, int, int), q: (int, int, int))
    requires
        reachable(pf, fig, start, p),
        step_ok(fig.num_faces(), p, q),
        free(pf, fig, q),
    ensures
        reachable(pf, fig, start, q),
{
    let s = choose|s: Seq<(int, int, int)>| #[trigger] is_route(pf, fig, s) && s[0] == start && s[s.len() - 1] == p;
    let s2 = s.push(q);
    assert forall|i: int| 0 <= i < s2.len() implies free(pf, fig, #[trigger] s2[i]) by {
        if i < s.len() {
            assert(s2[i] == s[i]);
        }
    }
    assert forall|i: int, j: int|
        0 <= i && j == i + 1 && j < s2.len() implies step_ok(fig.num_faces(), #[trigger] s2[i], #[trigger] s2[j]) by {
        if j < s.len() {
            assert(s2[i] == s[i] && s2[j] == s[j]);
            assert(step_ok(fig.num_faces(), s[i], s[j]));
        }
    }
    assert(is_route(pf, fig, s2));
}

/// A free place lies within the playfield's columns and rows, up to the
/// width and height of its face.
pub(crate) proof fn lemma_free_bounds(pf: &Playfield, fig: &Figure, p: (int, int, int))
    requires
        pf.wf(),
        fig.wf(),
        0 < fig.num_faces(),
        faces_have_blocks(fig),
        free(pf, fig, p),
    ensures
        p.0 < pf.w(),
        p.1 < pf.h(),
        p.0 >= -i32::MAX,
        p.1 >= -i32::MAX,
        p.0 + fig.face_for(p.2 as i32).width() > 0,
        p.1 + fig.face_for(p.2 as i32).height() > 0,
{
    let n = fig.num_faces();
    let k = ((p.2 as i32) as usize) as int % n;
    assert(0 <= k < n);
    let face = fig.faces_spec()[k];
    assert(has_block(face));
    let f = choose|f: (int, int)| face.contains(f) && #[trigger] face.at(f).occupied();
    assert(fig.faces_spec()[k] == fig.face_for(p.2 as i32));
    fig.lemma_face_tl(k);
    if !pf.inside(p.0 + f.0, p.1 + f.1) {
        assert(pf.occupied(p.0 + f.0, p.1 + f.1));
        assert(pf.hits(face, (p.0, p.1), f));
        assert(pf.collides(fig.face_for(p.2 as i32), (p.0, p.1)));
    }
    assert(pf.inside(p.0 + f.0, p.1 + f.1));
}

pub(crate) proof fn lemma_fits_mono(fig: &Figure, a: int, b: int, x: int, y: int)
    requires
        fig.fits_at(a, b),
        i32::MIN <= x <= a,
        i32::MIN <= y <= b,
    ensures
        fig.fits_at(x, y),
{
    assert forall|i: int| 0 <= i < fig.num_faces() implies x + (#[trigger] fig.faces_spec()[i]).width()
        <= i32::MAX && y + fig.faces_spec()[i].height() <= i32::MAX by {
        assert(a + fig.faces_spec()[i].width() <= i32::MAX);
    }
}

/// The queue of a search from `st`: its places are marked, free, reachable
/// and distinct, below the start row and between the start direction and
/// `zmax`; every marked place is in it.
spec fn queue_ok(
    pf: &Playfield,
    fig: &Figure,
    st: (int, int, int),
    zmax: int,
    v: Cells3<bool>,
    m: Seq<PosDir>,
) -> bool {
    &&& forall|i: int|
        #![trigger m[i]]
        0 <= i < m.len() ==> v.contains(m[i].coords()) && seen3(v, m[i].coords()) && free(
            pf,
            fig,
            m[i].coords(),
        ) && reachable(pf, fig, st, m[i].coords()) && st.1 <= m[i].y && st.2 <= m[i].z <= zmax
    &&& forall|q: (int, int, int)|
        v.contains(q) && #[trigger] seen3(v, q) ==> exists|i: int| 0 <= i < m.len() && m[i].coords() == q
    &&& forall|i: int, j: int| 0 <= i < j < m.len() ==> m[i] != m[j]
}

proof fn lemma_enqueue(
    pf: &Playfield,
    fig: &Figure,
    st: (int, int, int),
    zmax: int,
    v: Cells3<bool>,
    m: Seq<PosDir>,
    p: PosDir,
)
    requires
        queue_ok(pf, fig, st, zmax, v, m),
        v.wf(),
        v.contains(p.coords()),
        !seen3(v, p.coords()),
        free(pf, fig, p.coords()),
        reachable(pf, fig, st, p.coords()),
        st.1 <= p.y,
        st.2 <= p.z <= zmax,
    ensures
        queue_ok(pf, fig, st, zmax, v.set(p.coords(), true), m.push(p)),
        forall|q: (int, int, int)| v.contains(q) && #[trigger] seen3(v, q) ==> seen3(v.set(p.coords(), true), q),
        unseen3(v.set(p.coords(), true).cells) + 1 == unseen3(v.cells),
        seen3(v.set(p.coords(), true), p.coords()),
{
    let v2 = v.set(p.coords(), true);
    let m2 = m.push(p);
    let pc = p.coords();
    v.law_at_set_same(pc, true);
    v.lemma_contains_index(pc);
    lemma_unseen3_mark(v.cells, v.index(pc));
    assert forall|q: (int, int, int)| v.contains(q) && #[trigger] seen3(v, q) implies seen3(v2, q) by {
        if q != pc {
            v.law_at_set_other(pc, q, true);
        }
    }
    assert forall|i: int|
        #![trigger m2[i]]
        0 <= i < m2.len() implies v2.contains(m2[i].coords()) && seen3(v2, m2[i].coords()) && free(
            pf,
            fig,
            m2[i].coords(),
        ) && reachable(pf, fig, st, m2[i].coords()) && st.1 <= m2[i].y && st.2 <= m2[i].z <= zmax by {
        if i < m.len() {
            assert(m2[i] == m[i]);
            assert(seen3(v, m[i].coords()));
        }
    }
    assert forall|q: (int, int, int)| v2.contains(q) && #[trigger] seen3(v2, q) implies exists|i: int|
        0 <= i < m2.len() && m2[i].coords() == q by {
        if q == pc {
            assert(m2[m.len() as int].coords() == q);
        } else {
            v.law_at_set_other(pc, q, true);
            assert(seen3(v, q));
            let i = choose|i: int| 0 <= i < m.len() && m[i].coords() == q;
            assert(m2[i] == m[i]);
        }
    }
    assert forall|i: int, j: int| 0 <= i < j < m2.len() implies m2[i] != m2[j] by {
        if j == m.len() {
            assert(m2[i] == m[i]);
            assert(seen3(v, m[i].coords()));
            if m[i] == p {
                assert(m[i].coords() == pc);
            }
        } else {
            assert(m2[i] == m[i] && m2[j] == m[j]);
        }
    }
}

/// Marks `p` and appends it to the queue when the figure fits there and
/// it is not marked yet.
fn try_enqueue(pf: &Playfield, fig: &Figure, visited: &mut Matrix3<bool>, moves: &mut Vec<PosDir>, p: PosDir)
    requires
        pf.wf(),
        fig.wf(),
        0 < fig.num_faces(),
        fig.fits_at(p.x as int, p.y as int),
        old(visited).wf(),
        old(visited)@.contains(p.coords()),
    ensures
        final(visited).wf(),
        final(visited)@.tl == old(visited)@.tl,
        final(visited)@.br == old(visited)@.br,
        ({
            let fresh = !seen3(old(visited)@, p.coords()) && free(pf, fig, p.coords());
            &&& final(visited)@ == (if fresh {
                old(visited)@.set(p.coords(), true)
            } else {
                old(visited)@
            })
            &&& final(moves)@ == (if fresh {
                old(moves)@.push(p)
            } else {
                old(moves)@
            })
        }),
{
    proof {
        visited@.lemma_contains_index(p.coords());
    }
    if !*visited.tv_get(&p) && !fig.test_collision(pf, &p) {
        visited.tv_set(&p, true);
        moves.push(p);
    }
}

proof fn lemma_resting_prefix(pf: &Playfield, fig: &Figure, s: Seq<PosDir>, t: Seq<PosDir>, k: int)
    requires
        0 <= k <= s.len(),
        k <= t.len(),
        forall|i: int| 0 <= i < k ==> s[i] == t[i],
    ensures
        resting_among(pf, fig, s, k) == resting_among(pf, fig, t, k),
    decreases k,
{
    if k > 0 {
        lemma_resting_prefix(pf, fig, s, t, k - 1);
    }
}

/// Each place among the resting ones is one of the first `k` of `s`, and it rests.
proof fn lemma_resting_member(pf: &Playfield, fig: &Figure, s: Seq<PosDir>, k: int, i: int) -> (j: int)
    requires
        0 <= k <= s.len(),
        0 <= i < resting_among(pf, fig, s, k).len(),
    ensures
        0 <= j < k,
        resting_among(pf, fig, s, k)[i] == s[j],
        rests(pf, fig, s[j].coords()),
    decreases k,
{
    let prev = resting_among(pf, fig, s, k - 1);
    let cur = resting_among(pf, fig, s, k);
    if i < prev.len() {
        assert(cur[i] == prev[i]);
        lemma_resting_member(pf, fig, s, k - 1, i)
    } else {
        k - 1
    }
}

/// The resting places of a sequence without repeats hold no repeats.
proof fn lemma_resting_distinct(pf: &Playfield, fig: &Figure, s: Seq<PosDir>, k: int)
    requires
        0 <= k <= s.len(),
        forall|a: int, b: int| 0 <= a < b < s.len() ==> s[a] != s[b],
    ensures
        forall|i: int, j: int|
            0 <= i < j < resting_among(pf, fig, s, k).len() ==> resting_among(pf, fig, s, k)[i]
                != resting_among(pf, fig, s, k)[j],
    decreases k,
{
    if k > 0 {
        lemma_resting_distinct(pf, fig, s, k - 1);
        let prev = resting_among(pf, fig, s, k - 1);
        let cur = resting_among(pf, fig, s, k);
        assert forall|i: int, j: int| 0 <= i < j < cur.len() implies cur[i] != cur[j] by {
            if j < prev.len() {
                assert(cur[i] == prev[i] && cur[j] == prev[j]);
            } else {
                assert(cur[j] == s[k - 1]);
                assert(cur[i] == prev[i]);
                let a = lemma_resting_member(pf, fig, s, k - 1, i);
                assert(s[a] != s[k - 1]);
            }
        }
    }
}

proof fn lemma_resting_complete(pf: &Playfield, fig: &Figure, s: Seq<PosDir>, k: int, j: int)
    requires
        0 <= j < k <= s.len(),
        rests(pf, fig, s[j].coords()),
    ensures
        exists|i: int|
            0 <= i < resting_among(pf, fig, s, k).len() && resting_among(pf, fig, s, k)[i] == s[j],
    decreases k,
{
    let cur = resting_among(pf, fig, s, k);
    if j == k - 1 {
        assert(cur[cur.len() - 1] == s[j]);
    } else {
        lemma_resting_complete(pf, fig, s, k - 1, j);
        let prev = resting_among(pf, fig, s, k - 1);
        let i = choose|i: int| 0 <= i < prev.len() && prev[i] == s[j];
        assert(cur[i] == prev[i]);
    }
}

/// Every place reachable from the start is in a closed queue.
proof fn lemma_reach_in_queue(
    pf: &Playfield,
    fig: &Figure,
    st: (int, int, int),
    zmax: int,
    v: Cells3<bool>,
    m: Seq<PosDir>,
    p: (int, int, int),
)
    requires
        pf.wf(),
        fig.wf(),
        0 < fig.num_faces(),
        faces_have_blocks(fig),
        zmax == top_dir(fig, st.2),
        queue_ok(pf, fig, st, zmax, v, m),
        box_ok(v, pf, fig, st),
        m.len() >= 1,
        m[0].coords() == st,
        forall|i: int, q: (int, int, int)|
            0 <= i < m.len() && #[trigger] step_ok(fig.num_faces(), m[i].coords(), q) && free(pf, fig, q)
                ==> seen3(v, q),
        reachable(pf, fig, st, p),
    ensures
        exists|j: int| 0 <= j < m.len() && m[j].coords() == p,
{
    let s = choose|s: Seq<(int, int, int)>| #[trigger] is_route(pf, fig, s) && s[0] == st && s[s.len() - 1] == p;
    lemma_route_in_queue(pf, fig, st, zmax, v, m, s, s.len() - 1);
}

proof fn lemma_route_in_queue(
    pf: &Playfield,
    fig: &Figure,
    st: (int, int, int),
    zmax: int,
    v: Cells3<bool>,
    m: Seq<PosDir>,
    s: Seq<(int, int, int)>,
    k: int,
)
    requires
        pf.wf(),
        fig.wf(),
        0 < fig.num_faces(),
        faces_have_blocks(fig),
        zmax == top_dir(fig, st.2),
        queue_ok(pf, fig, st, zmax, v, m),
        box_ok(v, pf, fig, st),
        m.len() >= 1,
        m[0].coords() == st,
        forall|i: int, q: (int, int, int)|
            0 <= i < m.len() && #[trigger] step_ok(fig.num_faces(), m[i].coords(), q) && free(pf, fig, q)
                ==> seen3(v, q),
        is_route(pf, fig, s),
        s[0] == st,
        0 <= k < s.len(),
    ensures
        exists|j: int| 0 <= j < m.len() && m[j].coords() == s[k],
    decreases k,
{
    if k == 0 {
        assert(m[0].coords() == s[0]);
    } else {
        lemma_route_in_queue(pf, fig, st, zmax, v, m, s, k - 1);
        let j = choose|j: int| 0 <= j < m.len() && m[j].coords() == s[k - 1];
        let c = m[j].coords();
        assert(step_ok(fig.num_faces(), s[k - 1], s[k]));
        assert(free(pf, fig, s[k]));
        assert(seen3(v, s[k]));
        assert(free(pf, fig, c) && st.1 <= c.1 && st.2 <= c.2 <= zmax);
        assert(probes_in(v, pf, fig, c));
        assert(v.contains(s[k]));
    }
}

/// One probe of the search: when the figure fits at `q`, one step from
/// `cur`, and `q` is not marked yet, `q` is marked and queued.
fn probe(
    pf: &Playfield,
    fig: &Figure,
    visited: &mut Matrix3<bool>,
    moves: &mut Vec<PosDir>,
    cur: PosDir,
    q: PosDir,
    Ghost(st): Ghost<(int, int, int)>,
    Ghost(zmax): Ghost<int>,
)
    requires
        pf.wf(),
        fig.wf(),
        0 < fig.num_faces(),
        faces_have_blocks(fig),
        fig.fits_at(pf.w() + 1, pf.h() + 1),
        old(visited).wf(),
        queue_ok(pf, fig, st, zmax, old(visited)@, old(moves)@),
        reachable(pf, fig, st, cur.coords()),
        free(pf, fig, cur.coords()),
        st.1 <= cur.y,
        st.2 <= cur.z <= zmax,
        step_ok(fig.num_faces(), cur.coords(), q.coords()),
        q.z <= zmax,
        old(visited)@.contains(q.coords()),
    ensures
        final(visited).wf(),
        final(visited)@.tl == old(visited)@.tl,
        final(visited)@.br == old(visited)@.br,
        queue_ok(pf, fig, st, zmax, final(visited)@, final(moves)@),
        forall|r: (int, int, int)|
            old(visited)@.contains(r) && #[trigger] seen3(old(visited)@, r) ==> seen3(final(visited)@, r),
        free(pf, fig, q.coords()) ==> seen3(final(visited)@, q.coords()),
        unseen3(final(visited)@.cells) + final(moves)@.len() == unseen3(old(visited)@.cells) + old(
            moves,
        )@.len(),
        final(moves)@ == old(moves)@ || final(moves)@ == old(moves)@.push(q),
{
    proof {
        lemma_free_bounds(pf, fig, cur.coords());
        lemma_fits_mono(fig, pf.w() + 1, pf.h() + 1, q.x as int, q.y as int);
    }
    let ghost v = visited@;
    let ghost m = moves@;
    try_enqueue(pf, fig, visited, moves, q);
    proof {
        let qc = q.coords();
        if !seen3(v, qc) && free(pf, fig, qc) {
            lemma_route_step(pf, fig, st, cur.coords(), qc);
            lemma_enqueue(pf, fig, st, zmax, v, m, q);
        }
    }
}

/// Breadth-first search for every place where the figure comes to rest,
/// marking visited places in `visited`.
#[verifier::rlimit(100)]
#[verifier::spinoff_prover]
pub(crate) fn explore(pf: &Playfield, fig: &Figure, start: PosDir, visited: &mut Matrix3<bool>) -> (r: Vec<PosDir>)
    requires
        pf.wf(),
        fig.wf(),
        0 < fig.num_faces() <= i32::MAX,
        faces_have_blocks(fig),
        fig.fits_at(pf.w() + 1, pf.h() + 1),
        start.z < i32::MAX,
        old(visited).wf(),
        forall|q: (int, int, int)| old(visited)@.contains(q) ==> !#[trigger] seen3(old(visited)@, q),
        free(pf, fig, start.coords()),
        old(visited)@.contains(start.coords()),
        box_ok(old(visited)@, pf, fig, start.coords()),
    ensures
        forall|i: int| 0 <= i < r@.len() ==> reachable(pf, fig, start.coords(), #[trigger] r@[i].coords())
            && rests(pf, fig, r@[i].coords()),
        forall|p: (int, int, int)|
            #[trigger] reachable(pf, fig, start.coords(), p) && rests(pf, fig, p) ==> exists|i: int|
                0 <= i < r@.len() && r@[i].coords() == p,
        forall|i: int, j: int| 0 <= i < j < r@.len() ==> r@[i] != r@[j],
        fewest_steps_first(pf, fig, start.coords(), r@),
{
    let ghost v0 = visited@;
    let ghost st = start.coords();
    let ghost n = fig.num_faces();
    let ghost zmax = top_dir(fig, st.2);
    let nf = fig.faces().len();
    let mut placements: Vec<PosDir> = Vec::new();
    let mut moves: Vec<PosDir> = Vec::new();
    proof {
        v0.lemma_contains_index(st);
        assert(!seen3(v0, st));
        let s = seq![st];
        assert(is_route(pf, fig, s));
        assert(reachable(pf, fig, st, st));
        assert(queue_ok(pf, fig, st, zmax, v0, moves@));
        lemma_enqueue(pf, fig, st, zmax, v0, moves@, start);
    }
    visited.tv_set(&start, true);
    moves.push(start);
    let ghost mut lab: Seq<nat> = seq![0nat];
    proof {
        let s0 = seq![st];
        assert(is_route(pf, fig, s0) && s0[0] == st && s0[s0.len() - 1] == st);
        assert(reach_within(pf, fig, st, moves@[0].coords(), lab[0]));
        reveal(labels_ok);
        reveal(labels_closed);
        assert(labels_ok(pf, fig, st, moves@, lab, 0));
        assert(labels_closed(pf, fig, moves@, lab, 0));
    }
    let mut head: usize = 0;
    while head < moves.len()
        invariant
            pf.wf(),
            fig.wf(),
            n == fig.num_faces(),
            nf == n,
            0 < n <= i32::MAX,
            faces_have_blocks(fig),
            fig.fits_at(pf.w() + 1, pf.h() + 1),
            st == start.coords(),
            st.2 < i32::MAX,
            zmax == top_dir(fig, st.2),
            visited.wf(),
            visited@.tl == v0.tl,
            visited@.br == v0.br,
            box_ok(visited@, pf, fig, st),
            0 <= head <= moves@.len(),
            moves@.len() >= 1,
            moves@[0] == start,
            queue_ok(pf, fig, st, zmax, visited@, moves@),
            forall|i: int, q: (int, int, int)|
                0 <= i < head && #[trigger] step_ok(n, moves@[i].coords(), q) && free(pf, fig, q)
                    ==> seen3(visited@, q),
            placements@ == resting_among(pf, fig, moves@, head as int),
            labels_ok(pf, fig, st, moves@, lab, head as int),
            lab.len() == moves@.len(),
            lab[0] == 0,
            labels_closed(pf, fig, moves@, lab, head as int),
        decreases unseen3(visited@.cells) + moves@.len() - head,
    {
        let cur = moves[head];
        let ghost cp = cur.coords();
        let ghost v_before = visited@;
        let ghost m_before = moves@;
        proof {
            assert(free(pf, fig, cp));
            assert(probes_in(visited@, pf, fig, cp));
            lemma_free_bounds(pf, fig, cp);
        }
        // Left and right
        let ghost d_before = lab;
        let left = cur.apply_move(&Movement::MoveLeft);
        let ghost mm_left = moves@;
        probe(pf, fig, visited, &mut moves, cur, left, Ghost(st), Ghost(zmax));
        proof {
            if moves@ != mm_left {
                assert(moves@[mm_left.len() as int] == left);
            }
            lab = lemma_label_probe(pf, fig, st, mm_left, lab, head as int, moves@, left);
        }
        let ghost v1 = visited@;
        let right = cur.apply_move(&Movement::MoveRight);
        let ghost mm_right = moves@;
        probe(pf, fig, visited, &mut moves, cur, right, Ghost(st), Ghost(zmax));
        proof {
            if moves@ != mm_right {
                assert(moves@[mm_right.len() as int] == right);
            }
            lab = lemma_label_probe(pf, fig, st, mm_right, lab, head as int, moves@, right);
        }
        let ghost v2 = visited@;
        // Clockwise turn while there are faces left
        let cw = cur.apply_move(&Movement::RotateCW);
        if cw.get_dir() < nf as i32 {
            let ghost mm_cw = moves@;
            probe(pf, fig, visited, &mut moves, cur, cw, Ghost(st), Ghost(zmax));
            proof {
                if moves@ != mm_cw {
                        assert(moves@[mm_cw.len() as int] == cw);
                }
                lab = lemma_label_probe(pf, fig, st, mm_cw, lab, head as int, moves@, cw);
            }
        }
        let ghost v3 = visited@;
        // Down is special: if the figure can't move down, the current
        // position is a valid placement.
        let down = cur.apply_move(&Movement::MoveDown);
        proof {
            lemma_fits_mono(fig, pf.w() + 1, pf.h() + 1, down.x as int, down.y as int);
        }
        let ghost pl_before = placements@;
        if fig.test_collision(pf, &down) {
            placements.push(cur);
        } else {
            let ghost mm_down = moves@;
            probe(pf, fig, visited, &mut moves, cur, down, Ghost(st), Ghost(zmax));
            proof {
                if moves@ != mm_down {
                        assert(moves@[mm_down.len() as int] == down);
                }
                lab = lemma_label_probe(pf, fig, st, mm_down, lab, head as int, moves@, down);
            }
        }
        proof {
            let m = moves@;
            assert(m.len() >= m_before.len());
            assert forall|i: int| 0 <= i < m_before.len() implies m[i] == m_before[i] by {
            }
            assert(m[head as int] == cur);
            lemma_resting_prefix(pf, fig, m_before, m, head as int);
            let d = (cp.0, cp.1 + 1, cp.2);
            assert(rests(pf, fig, cp) == !free(pf, fig, d));
            assert(resting_among(pf, fig, m, head + 1) == resting_among(pf, fig, m, head as int) + if rests(
                pf,
                fig,
                m[head as int].coords(),
            ) {
                seq![m[head as int]]
            } else {
                Seq::empty()
            });
            assert(placements@ =~= resting_among(pf, fig, m, head + 1));
            assert forall|i: int, q: (int, int, int)|
                0 <= i < head + 1 && #[trigger] step_ok(n, m[i].coords(), q) && free(pf, fig, q)
                    implies seen3(visited@, q) by {
                if i < head {
                    assert(m[i] == m_before[i]);
                    assert(seen3(v_before, q));
                    let mi = m_before[i].coords();
                    assert(free(pf, fig, mi) && st.1 <= mi.1 && st.2 <= mi.2 <= zmax);
                    assert(probes_in(v_before, pf, fig, mi));
                    assert(v_before.contains(q));
                } else {
                    assert(m[i] == cur);
                    if q == (cp.0 - 1, cp.1, cp.2) {
                        assert(seen3(v1, q));
                    } else if q == (cp.0 + 1, cp.1, cp.2) {
                        assert(seen3(v2, q));
                    } else if q == (cp.0, cp.1, cp.2 + 1) {
                        assert(seen3(v3, q));
                    } else {
                        assert(q == d);
                    }
                }
            }
            assert forall|q: (int, int, int)| #[trigger] step_ok(n, m[head as int].coords(), q) && free(pf, fig, q)
                implies exists|j: int| 0 <= j < m.len() && m[j].coords() == q by {
                assert(seen3(visited@, q));
                assert(probes_in(visited@, pf, fig, m[head as int].coords()));
                assert(visited@.contains(q));
            }
            lemma_labels_close(pf, fig, st, m_before, d_before, m, lab, head as int);
        }
        head = head + 1;
    }
    proof {
        let m = moves@;
        lemma_resting_distinct(pf, fig, m, m.len() as int);
        assert forall|p: (int, int, int)|
            #[trigger] reachable(pf, fig, start.coords(), p) && rests(pf, fig, p) implies exists|i: int|
                0 <= i < placements@.len() && placements@[i].coords() == p by {
            lemma_reach_in_queue(pf, fig, st, zmax, visited@, m, p);
            let j = choose|j: int| 0 <= j < m.len() && m[j].coords() == p;
            lemma_resting_complete(pf, fig, m, m.len() as int, j);
        }
        lemma_labels_order(pf, fig, st, m, lab, placements@);
        assert forall|i: int| 0 <= i < placements@.len() implies reachable(
            pf,
            fig,
            start.coords(),
            #[trigger] placements@[i].coords(),
        ) && rests(pf, fig, placements@[i].coords()) by {
            let j = lemma_resting_member(pf, fig, m, m.len() as int, i);
            assert(reachable(pf, fig, st, m[j].coords()));
        }
    }
    placements
}

/// The box of marks that covers the playfield for four directions.
pub open spec fn field_box(pf: &Playfield) -> Cells3<bool> {
    Cells3 { tl: (0, 0, 0), br: (pf.w(), pf.h(), 4), cells: Seq::empty() }
}

/// Every place where the figure comes to rest that it can reach from its
/// position by steps left, right, down and clockwise turns (while the
/// direction stays below the number of faces) through places where it
/// fits. Visited places are marked in a box covering the playfield and
/// four directions, which every probed place must lie in.
pub fn find_placement(pf: &Playfield, fig_pos: &FigurePos) -> (r: Vec<PosDir>)
    requires
        pf.wf(),
        fig_pos.wf(),
        faces_have_blocks(&fig_pos.fig_spec()),
        fig_pos.fig_spec().fits_at(pf.w() + 1, pf.h() + 1),
        fig_pos.fig_spec().fits_at(fig_pos.pos_spec().x as int, fig_pos.pos_spec().y as int),
        pf.w() * pf.h() * 4 <= i32::MAX,
        fig_pos.pos_spec().z < i32::MAX,
        free(pf, &fig_pos.fig_spec(), fig_pos.pos_spec().coords()) ==> {
            &&& field_box(pf).contains(fig_pos.pos_spec().coords())
            &&& box_ok(field_box(pf), pf, &fig_pos.fig_spec(), fig_pos.pos_spec().coords())
        },
    ensures
        !free(pf, &fig_pos.fig_spec(), fig_pos.pos_spec().coords()) ==> r@.len() == 0,
        forall|i: int|
            0 <= i < r@.len() ==> reachable(
                pf,
                &fig_pos.fig_spec(),
                fig_pos.pos_spec().coords(),
                #[trigger] r@[i].coords(),
            ) && rests(pf, &fig_pos.fig_spec(), r@[i].coords()),
        forall|p: (int, int, int)|
            #[trigger] reachable(pf, &fig_pos.fig_spec(), fig_pos.pos_spec().coords(), p) && rests(
                pf,
                &fig_pos.fig_spec(),
                p,
            ) ==> exists|i: int| 0 <= i < r@.len() && r@[i].coords() == p,
        forall|i: int, j: int| 0 <= i < j < r@.len() ==> r@[i] != r@[j],
        fewest_steps_first(pf, &fig_pos.fig_spec(), fig_pos.pos_spec().coords(), r@),
{
    proof {
        pf.lemma_wf();
        assert(pf.w() * pf.h() <= i32::MAX);
    }
    let mut visited: Matrix3<bool> = Matrix3::new(pf.width(), pf.height(), 4, false);
    let start = *fig_pos.get_position();
    let fig = fig_pos.get_figure();
    if fig.test_collision(pf, &start) {
        return Vec::new();
    }
    proof {
        assert(free(pf, fig, start.coords()));
        assert forall|q: (int, int, int)| visited@.contains(q) implies !#[trigger] seen3(visited@, q) by {
            visited@.lemma_contains_index(q);
        }
        assert forall|p: (int, int, int)|
            #[trigger] reachable(pf, fig, start.coords(), p) && start.y <= p.1 && start.z <= p.2 <= top_dir(
                fig,
                start.z as int,
            ) implies probes_in(visited@, pf, fig, p) by {
            assert(probes_in(field_box(pf), pf, fig, p));
        }
    }
    explore(pf, fig, start, &mut visited)
}

} // verus!
