use vstd::prelude::*;

use crate::coords::figure::Figure;
use crate::coords::playfield::Playfield;
use crate::coords::position::Position;
use crate::coords::vec3::Vec3;
use crate::vec2::Vec2;

verus! {

/// The face, laid with its corner at (x, y), meets a set block of the
/// playfield or its outside.
pub open spec fn hits(pf: &Playfield, face: Seq<(u8, u8, u8)>, x: int, y: int) -> bool {
    exists|i: int| 0 <= i < face.len() && (#[trigger] pf.block(x + face[i].0, y + face[i].1)) is Filled
}

/// The places of column `x`, among rows below `k`, where the face rests:
/// free, with a collision one row further down.
pub open spec fn column_places(pf: &Playfield, face: Seq<(u8, u8, u8)>, d: int, x: int, k: int) -> Seq<
    Position,
>
    decreases k,
{
    if k <= 0 {
        Seq::empty()
    } else {
        let s = column_places(pf, face, d, x, k - 1);
        let y = k - 1;
        if y >= 1 && hits(pf, face, x, y) && !hits(pf, face, x, y - 1) {
            s.push(Vec3 { x: x as i32, y: (y - 1) as i32, z: d as i32 })
        } else {
            s
        }
    }
}

/// The resting places of the face in columns `x0..x`, column by column.
pub open spec fn face_places(pf: &Playfield, face: Seq<(u8, u8, u8)>, d: int, x0: int, x: int) -> Seq<
    Position,
>
    decreases x - x0,
{
    if x <= x0 {
        Seq::empty()
    } else {
        face_places(pf, face, d, x0, x - 1) + column_places(pf, face, d, x - 1, pf.h())
    }
}

/// The resting places of the first `n` faces, face by face, in the columns
/// from `x0` to the right edge.
pub open spec fn all_places(pf: &Playfield, fig: &Figure, x0: int, n: int) -> Seq<Position>
    decreases n,
{
    if n <= 0 {
        Seq::empty()
    } else {
        all_places(pf, fig, x0, n - 1) + face_places(pf, fig.face_spec(n - 1), n - 1, x0, pf.w())
    }
}

/// Two lists without repeats and without a common entry join into one
/// without repeats.
proof fn lemma_join_distinct<A>(a: Seq<A>, b: Seq<A>)
    requires
        a.no_duplicates(),
        b.no_duplicates(),
        forall|x: A| a.contains(x) ==> !b.contains(x),
    ensures
        (a + b).no_duplicates(),
{
    let c = a + b;
    assert forall|i: int, j: int| 0 <= i < c.len() && 0 <= j < c.len() && i != j implies c[i] != c[j] by {
        if i < a.len() && j >= a.len() {
            assert(c[i] == a[i] && c[j] == b[j - a.len()]);
            assert(a.contains(a[i]));
            assert(b.contains(b[j - a.len()]));
        } else if j < a.len() && i >= a.len() {
            assert(c[j] == a[j] && c[i] == b[i - a.len()]);
            assert(a.contains(a[j]));
            assert(b.contains(b[i - a.len()]));
        } else if i < a.len() {
            assert(c[i] == a[i] && c[j] == a[j]);
        } else {
            assert(c[i] == b[i - a.len()] && c[j] == b[j - a.len()]);
        }
    }
}

/// A column scanned down to row `k` lists, from the top, every row where
/// the face fits with a collision one row further down, and no other
/// place: one for each such row, however many a column holds.
pub proof fn law_column_places(pf: &Playfield, face: Seq<(u8, u8, u8)>, d: int, x: int, k: int)
    requires
        i32::MIN <= x <= i32::MAX,
        0 <= d <= i32::MAX,
        k <= i32::MAX,
    ensures
        forall|p: Position|
            #[trigger] column_places(pf, face, d, x, k).contains(p) <==> {
                &&& p.x == x
                &&& p.z == d
                &&& 0 <= p.y
                &&& p.y + 1 < k
                &&& hits(pf, face, x, p.y + 1)
                &&& !hits(pf, face, x, p.y as int)
            },
        forall|i: int, j: int|
            0 <= i < j < column_places(pf, face, d, x, k).len() ==> (#[trigger] column_places(
                pf,
                face,
                d,
                x,
                k,
            )[i]).y < (#[trigger] column_places(pf, face, d, x, k)[j]).y,
        column_places(pf, face, d, x, k).no_duplicates(),
    decreases k,
{
    if k > 0 {
        law_column_places(pf, face, d, x, k - 1);
        let prev = column_places(pf, face, d, x, k - 1);
        let cur = column_places(pf, face, d, x, k);
        let y = k - 1;
        if y >= 1 && hits(pf, face, x, y) && !hits(pf, face, x, y - 1) {
            let e = Vec3 { x: x as i32, y: (y - 1) as i32, z: d as i32 };
            assert(cur == prev.push(e));
            assert forall|p: Position| #[trigger] cur.contains(p) <==> (prev.contains(p) || p == e) by {
                if cur.contains(p) {
                    let i = choose|i: int| 0 <= i < cur.len() && cur[i] == p;
                    if i < prev.len() {
                        assert(prev[i] == p);
                    }
                }
                if prev.contains(p) {
                    let i = choose|i: int| 0 <= i < prev.len() && prev[i] == p;
                    assert(cur[i] == p);
                }
                if p == e {
                    assert(cur[prev.len() as int] == e);
                }
            }
            assert forall|i: int, j: int| 0 <= i < j < cur.len() implies (#[trigger] cur[i]).y < (#[trigger] cur[j]).y by {
                if j < prev.len() {
                    assert(cur[i] == prev[i] && cur[j] == prev[j]);
                } else {
                    assert(cur[i] == prev[i]);
                    assert(prev.contains(prev[i]));
                }
            }
        } else {
            assert(cur =~= prev);
        }
    } else {
        assert forall|p: Position| !#[trigger] column_places(pf, face, d, x, k).contains(p) by {}
    }
    let c = column_places(pf, face, d, x, k);
    assert forall|i: int, j: int| 0 <= i < c.len() && 0 <= j < c.len() && i != j implies c[i] != c[j] by {
        if i < j {
            assert(c[i].y < c[j].y);
        } else {
            assert(c[j].y < c[i].y);
        }
    }
}

/// The places of one face over columns `x0..x`: every column's resting
/// places, and nothing else.
pub proof fn law_face_places(pf: &Playfield, face: Seq<(u8, u8, u8)>, d: int, x0: int, x: int)
    requires
        i32::MIN <= x0,
        x <= i32::MAX,
        0 <= d <= i32::MAX,
        pf.h() <= i32::MAX,
    ensures
        forall|p: Position|
            #[trigger] face_places(pf, face, d, x0, x).contains(p) <==> {
                &&& x0 <= p.x < x
                &&& p.z == d
                &&& 0 <= p.y
                &&& p.y + 1 < pf.h()
                &&& hits(pf, face, p.x as int, p.y + 1)
                &&& !hits(pf, face, p.x as int, p.y as int)
            },
        face_places(pf, face, d, x0, x).no_duplicates(),
    decreases x - x0,
{
    if x > x0 {
        law_face_places(pf, face, d, x0, x - 1);
        law_column_places(pf, face, d, x - 1, pf.h());
        let a = face_places(pf, face, d, x0, x - 1);
        let b = column_places(pf, face, d, x - 1, pf.h());
        assert forall|p: Position| #[trigger] (a + b).contains(p) <==> (a.contains(p) || b.contains(p)) by {
            if (a + b).contains(p) {
                let i = choose|i: int| 0 <= i < (a + b).len() && (a + b)[i] == p;
                if i < a.len() {
                    assert(a[i] == p);
                } else {
                    assert(b[i - a.len()] == p);
                }
            }
            if a.contains(p) {
                let i = choose|i: int| 0 <= i < a.len() && a[i] == p;
                assert((a + b)[i] == p);
            }
            if b.contains(p) {
                let i = choose|i: int| 0 <= i < b.len() && b[i] == p;
                assert((a + b)[a.len() + i] == p);
            }
        }
        assert forall|p: Position| a.contains(p) implies !b.contains(p) by {
            assert(a.contains(p) ==> p.x < x - 1);
        }
        lemma_join_distinct(a, b);
    } else {
        assert forall|p: Position| !#[trigger] face_places(pf, face, d, x0, x).contains(p) by {}
        assert(face_places(pf, face, d, x0, x).len() == 0);
    }
}

/// Dropping each of the first `n` faces straight down in each column from
/// `x0` to the right edge finds every row where the face fits with a
/// collision one row further down, and nothing else.
pub proof fn law_all_places(pf: &Playfield, fig: &Figure, x0: int, n: int)
    requires
        i32::MIN <= x0,
        pf.w() <= i32::MAX,
        pf.h() <= i32::MAX,
        n <= i32::MAX,
    ensures
        forall|p: Position|
            #[trigger] all_places(pf, fig, x0, n).contains(p) <==> {
                &&& 0 <= p.z < n
                &&& x0 <= p.x < pf.w()
                &&& 0 <= p.y
                &&& p.y + 1 < pf.h()
                &&& hits(pf, fig.face_spec(p.z as int), p.x as int, p.y + 1)
                &&& !hits(pf, fig.face_spec(p.z as int), p.x as int, p.y as int)
            },
        all_places(pf, fig, x0, n).no_duplicates(),
    decreases n,
{
    if n > 0 {
        law_all_places(pf, fig, x0, n - 1);
        law_face_places(pf, fig.face_spec(n - 1), n - 1, x0, pf.w());
        let a = all_places(pf, fig, x0, n - 1);
        let b = face_places(pf, fig.face_spec(n - 1), n - 1, x0, pf.w());
        assert forall|p: Position| #[trigger] (a + b).contains(p) <==> (a.contains(p) || b.contains(p)) by {
            if (a + b).contains(p) {
                let i = choose|i: int| 0 <= i < (a + b).len() && (a + b)[i] == p;
                if i < a.len() {
                    assert(a[i] == p);
                } else {
                    assert(b[i - a.len()] == p);
                }
            }
            if a.contains(p) {
                let i = choose|i: int| 0 <= i < a.len() && a[i] == p;
                assert((a + b)[i] == p);
            }
            if b.contains(p) {
                let i = choose|i: int| 0 <= i < b.len() && b[i] == p;
                assert((a + b)[a.len() + i] == p);
            }
        }
        assert forall|p: Position| a.contains(p) implies !b.contains(p) by {
            assert(a.contains(p) ==> p.z < n - 1);
        }
        lemma_join_distinct(a, b);
    } else {
        assert forall|p: Position| !#[trigger] all_places(pf, fig, x0, n).contains(p) by {}
        assert(all_places(pf, fig, x0, n).len() == 0);
    }
}

/// Appends the places where each face of the figure comes to rest when
/// dropped straight down in each column, from half its width left of
/// the playfield to its right edge.
pub fn find_placement(placements: &mut Vec<Position>, pf: &Playfield, fig: &Figure)
    requires
        pf.wf(),
        fig.wf(),
        pf.w() + 255 <= i32::MAX,
        pf.h() + 255 <= i32::MAX,
    ensures
        final(placements)@ == old(placements)@ + all_places(pf, fig, -(fig.mw() / 2), fig.nf()),
        forall|p: Position|
            #[trigger] final(placements)@.contains(p) <==> old(placements)@.contains(p) || {
                &&& 0 <= p.z < fig.nf()
                &&& -(fig.mw() / 2) <= p.x < pf.w()
                &&& 0 <= p.y
                &&& p.y + 1 < pf.h()
                &&& hits(pf, fig.face_spec(p.z as int), p.x as int, p.y + 1)
                &&& !hits(pf, fig.face_spec(p.z as int), p.x as int, p.y as int)
            },
{
    let faces = fig.iter_faces();
    let ghost x0 = -(fig.mw() / 2);
    let mut dir: usize = 0;
    while dir < faces.len()
        invariant
            pf.wf(),
            fig.wf(),
            pf.w() + 255 <= i32::MAX,
            pf.h() + 255 <= i32::MAX,
            x0 == -(fig.mw() / 2),
            faces@.len() == fig.nf(),
            forall|i: int| 0 <= i < faces@.len() ==> (#[trigger] faces@[i])@ == fig.face_spec(i),
            0 <= dir <= faces@.len(),
            placements@ == old(placements)@ + all_places(pf, fig, x0, dir as int),
        decreases faces@.len() - dir,
    {
        let face = faces[dir];
        let ghost fs = face@;
        assert(fs == fig.face_spec(dir as int));
        let w = pf.width() as i32;
        let h = pf.height();
        let mut x: i32 = -((fig.max_width() / 2) as i32);
        let ghost base = placements@;
        while x < w
            invariant
                pf.wf(),
                pf.w() + 255 <= i32::MAX,
                pf.h() + 255 <= i32::MAX,
                w == pf.w(),
                h == pf.h(),
                fs == face@,
                x0 <= x <= w,
                x0 >= -127,
                placements@ == base + face_places(pf, fs, dir as int, x0, x as int),
            decreases w - x,
        {
            let mut last_pos: Option<Position> = None;
            let ghost before_col = placements@;
            let mut y: u32 = 0;
            while y < h
                invariant
                    pf.wf(),
                    pf.w() + 255 <= i32::MAX,
                    pf.h() + 255 <= i32::MAX,
                    w == pf.w(),
                    h == pf.h(),
                    fs == face@,
                    x0 <= x < w,
                    0 <= y <= h,
                    placements@ == before_col + column_places(pf, fs, dir as int, x as int, y as int),
                    last_pos == (if y >= 1 && !hits(pf, fs, x as int, y - 1) {
                        Some(Vec3 { x: x, y: (y - 1) as i32, z: dir as i32 })
                    } else {
                        None
                    }),
                decreases h - y,
            {
                let pos = Vec2 { x: x, y: y as i32 };
                if pf.test_collision(pos, face) {
                    if let Some(p) = last_pos {
                        placements.push(p);
                    }
                    last_pos = None;
                } else {
                    last_pos = Some(Vec3::new((x, y as i32, dir as i32)));
                }
                y = y + 1;
            }
            assert(face_places(pf, fs, dir as int, x0, x + 1) == face_places(pf, fs, dir as int, x0, x as int)
                + column_places(pf, fs, dir as int, x as int, pf.h()));
            x = x + 1;
        }
        assert(all_places(pf, fig, x0, dir + 1) == all_places(pf, fig, x0, dir as int) + face_places(
            pf,
            fig.face_spec(dir as int),
            dir as int,
            x0,
            pf.w(),
        ));
        dir = dir + 1;
    }
    proof {
        let a = old(placements)@;
        let b = all_places(pf, fig, x0, fig.nf());
        fig.lemma_nf_bound();
        law_all_places(pf, fig, x0, fig.nf());
        assert forall|p: Position| #[trigger] (a + b).contains(p) <==> (a.contains(p) || b.contains(p)) by {
            if (a + b).contains(p) {
                let i = choose|i: int| 0 <= i < (a + b).len() && (a + b)[i] == p;
                if i < a.len() {
                    assert(a[i] == p);
                } else {
                    assert(b[i - a.len()] == p);
                }
            }
            if a.contains(p) {
                let i = choose|i: int| 0 <= i < a.len() && a[i] == p;
                assert((a + b)[i] == p);
            }
            if b.contains(p) {
                let i = choose|i: int| 0 <= i < b.len() && b[i] == p;
                assert((a + b)[a.len() + i] == p);
            }
        }
    }
}

} // verus!
