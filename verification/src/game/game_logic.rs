use vstd::prelude::*;

use crate::cells::Cells;
use crate::game::player::{drawn_from, move_slot, MoveAndTime, PlayerCommon};
use crate::game::eval::thrown_block;
use crate::grid::block::{Block, BlockState};
use crate::grid::figure_pos::FigurePos;
use crate::grid::playfield::{cleared, covers, source, Playfield};
use crate::grid::pos_dir::{norm_dir, PosDir};
use crate::grid::vec3::Vec3;
use crate::movement::Movement;

verus! {

/// The block at (x, y) once the face laid at `from` is lifted off.
pub open spec fn lifted_block(pf: &Playfield, face: Cells<Block>, from: (int, int), x: int, y: int) -> Block {
    if pf.inside(x, y) && covers(face, from, (x, y)) {
        cleared()
    } else {
        pf.block(x, y)
    }
}

/// Once the face laid at `from` is lifted off, the face `to_face` laid at
/// `to` meets a set block or the outside.
pub open spec fn collides_lifted(
    pf: &Playfield,
    from_face: Cells<Block>,
    from: (int, int),
    to_face: Cells<Block>,
    to: (int, int),
) -> bool {
    exists|f: (int, int)|
        #[trigger] to_face.contains(f) && to_face.at(f).occupied() && lifted_block(
            pf,
            from_face,
            from,
            to.0 + f.0,
            to.1 + f.1,
        ).occupied()
}

/// The block at (x, y) once the face laid at `from` is lifted off and the
/// face `to_face` is laid at `to`.
pub open spec fn relaid_block(
    pf: &Playfield,
    from_face: Cells<Block>,
    from: (int, int),
    to_face: Cells<Block>,
    to: (int, int),
    x: int,
    y: int,
) -> Block {
    if covers(to_face, to, (x, y)) {
        to_face.at(source(to, (x, y)))
    } else {
        lifted_block(pf, from_face, from, x, y)
    }
}

//
// Try to place players next figure in playfield
//
// Returns whether the figure collided (the game is over); otherwise the
// figure is in play.
pub fn try_place_new_figure(player: &mut PlayerCommon, ticks: u64, pf: &mut Playfield) -> (r: bool)
    requires
        old(player).wf(),
        old(player).figures().len() % 256 != 0,
        old(player).next().wf(),
        0 < old(player).next().num_faces() <= i32::MAX,
        old(pf).wf(),
        old(pf).w() >= 2,
        old(player).next().fits_at(old(pf).w() / 2 - 1, 0),
        ticks + old(player).fdt() <= u64::MAX,
    ensures
        final(player).wf(),
        final(pf).wf(),
        final(pf).same_frame(old(pf)),
        r == old(pf).collides(old(player).next().face_for(0), (old(pf).w() / 2 - 1, 0)),
        r ==> *final(player) == *old(player) && *final(pf) == *old(pf),
        !r ==> ({
            let face = old(player).next().face_for(0);
            let at = (old(pf).w() / 2 - 1, 0int);
            &&& (final(player).in_play() matches Some(fp) && fp.fig_spec().faces_spec()
                == old(player).next().faces_spec() && fp.fig_spec().name_spec() == old(
                player,
            ).next().name_spec() && fp.fig_spec().wf() && fp.pos_spec().coords() == (at.0, at.1, 0int))
            &&& drawn_from(final(player).next(), old(player).figures())
            &&& final(player).queue() == old(player).queue().push(
                MoveAndTime { movement: Movement::MoveDown, time: (ticks + old(player).fdt()) as u64 },
            )
            &&& final(player).name_spec() == old(player).name_spec()
            &&& final(player).figures() == old(player).figures()
            &&& final(player).fdt() == old(player).fdt()
            &&& final(player).lines() == old(player).lines()
            &&& forall|x: int, y: int|
                final(pf).inside(x, y) ==> #[trigger] final(pf).block(x, y) == (if covers(face, at, (x, y)) {
                    face.at(source(at, (x, y)))
                } else {
                    old(pf).block(x, y)
                })
        }),
{
    let figure = player.next_figure().copy_figure();
    proof {
        pf.lemma_wf();
    }
    let pos = Vec3::new((pf.width() / 2 - 1) as i32, 0, 0);
    if figure.test_collision(pf, &pos) {
        return true;
    }
    let fig_pos = FigurePos::new(figure, pos);
    assert(norm_dir(0, fig_pos.fig_spec().num_faces()) == 0) by {
        vstd::arithmetic::div_mod::lemma_small_mod(0nat, fig_pos.fig_spec().num_faces() as nat);
    }
    player.gen_next_figure();
    let next_down = ticks + player.force_down_time();
    player.add_move(Movement::MoveDown, next_down);
    fig_pos.place(pf);
    player.set_figure(Some(fig_pos));
    false
}

//
// Move player current figure according to the given movement.
//
// Returns whether the figure is still in play afterwards.
pub fn execute_move(player: &mut PlayerCommon, pf: &mut Playfield, move_and_time: MoveAndTime) -> (r: bool)
    requires
        old(player).wf(),
        old(pf).wf(),
        old(player).in_play() is Some,
        old(player).in_play()->0.wf(),
        ({
            let fp = old(player).in_play()->0;
            let p = fp.pos_spec();
            let m = move_and_time.movement;
            &&& p.can_move(m)
            &&& fp.fig_spec().fits_at(p.x as int, p.y as int)
            &&& fp.fig_spec().fits_at(p.moved(m).0, p.moved(m).1)
        }),
    ensures
        final(player).wf(),
        final(pf).wf(),
        final(pf).same_frame(old(pf)),
        final(player).name_spec() == old(player).name_spec(),
        final(player).figures() == old(player).figures(),
        final(player).next() == old(player).next(),
        final(player).queue() == old(player).queue(),
        final(player).last_moves() == old(player).last_moves(),
        final(player).fdt() == old(player).fdt(),
        final(player).lines() == old(player).lines(),
        ({
            let fp = old(player).in_play()->0;
            let fig = fp.fig_spec();
            let p = fp.pos_spec();
            let m = move_and_time.movement;
            let t = p.moved(m);
            let face = fig.face_for(p.z);
            let at = (p.x as int, p.y as int);
            let c = collides_lifted(old(pf), face, at, fig.face_for(t.2 as i32), (t.0, t.1));
            let np = if c {
                p.coords()
            } else {
                (t.0, t.1, norm_dir(t.2, fig.num_faces()))
            };
            let nface = fig.face_for(np.2 as i32);
            &&& r == !(c && m == Movement::MoveDown)
            &&& !r ==> final(player).in_play() is None && forall|x: int, y: int|
                final(pf).inside(x, y) ==> #[trigger] final(pf).block(x, y) == relaid_block(
                    old(pf),
                    face,
                    at,
                    face,
                    at,
                    x,
                    y,
                )
            &&& r ==> (final(player).in_play() matches Some(g) && g.fig_spec().faces_spec()
                == fig.faces_spec() && g.fig_spec().name_spec() == fig.name_spec() && g.fig_spec().wf()
                && g.pos_spec().coords() == np)
            &&& r ==> forall|x: int, y: int|
                final(pf).inside(x, y) ==> #[trigger] final(pf).block(x, y) == relaid_block(
                    old(pf),
                    face,
                    at,
                    nface,
                    (np.0, np.1),
                    x,
                    y,
                )
        }),
{
    let ghost pf0 = *pf;
    let fig_move = move_and_time.movement;
    let mut fig_pos = match player.get_figure() {
        Some(f) => f,
        None => {
            return false;
        },
    };
    let ghost fp = old(player).in_play()->0;
    let ghost face = fp.fig_spec().face_for(fp.pos_spec().z);
    let ghost at = (fp.pos_spec().x as int, fp.pos_spec().y as int);
    assert(fig_pos.wf());
    fig_pos.remove(pf);
    let ghost mid = *pf;
    assert forall|x: int, y: int| mid.inside(x, y) implies #[trigger] mid.block(x, y) == lifted_block(
        &pf0,
        face,
        at,
        x,
        y,
    ) by {}
    let test_pos = fig_pos.get_position().apply_move(&fig_move);
    let collision = fig_pos.get_figure().test_collision(pf, &test_pos);
    proof {
        let tface = fp.fig_spec().face_for(test_pos.z);
        let to = (test_pos.x as int, test_pos.y as int);
        if collision {
            let f = choose|f: (int, int)| #[trigger] mid.hits(tface, to, f);
            assert(tface.contains(f));
        }
        if collides_lifted(&pf0, face, at, tface, to) {
            let f = choose|f: (int, int)|
                #[trigger] tface.contains(f) && tface.at(f).occupied() && lifted_block(
                    &pf0,
                    face,
                    at,
                    to.0 + f.0,
                    to.1 + f.1,
                ).occupied();
            assert(mid.hits(tface, to, f));
        }
    }
    if collision && fig_move == Movement::MoveDown {
        fig_pos.place(pf);
        player.set_figure(None);
        false
    } else {
        if !collision {
            fig_pos.set_position(&test_pos);
        }
        fig_pos.place(pf);
        player.set_figure(Some(fig_pos));
        true
    }
}

/// Locks the full lines of the playfield once a figure has landed: each is
/// filled with block 10 and added to the lines waiting to be thrown away.
pub fn lock_full_lines(pf: &mut Playfield, lines_to_throw: &mut Vec<u32>)
    requires
        old(pf).wf(),
    ensures
        final(pf).wf(),
        final(pf).same_frame(old(pf)),
        forall|x: int, y: int|
            final(pf).inside(x, y) ==> #[trigger] final(pf).block(x, y) == (if old(pf).full_rows().contains(
                y as u32,
            ) {
                Block { id: 10, state: BlockState::Locked }
            } else {
                old(pf).block(x, y)
            }),
        final(lines_to_throw)@ == old(lines_to_throw)@ + old(pf).full_rows(),
{
    let mut locked = pf.locked_lines();
    let ghost full = locked@;
    pf.set_lines(&locked, &Block::new_locked(10));
    lines_to_throw.append(&mut locked);
}

/// The lines are listed from the top, each once.
pub open spec fn ascending(t: Seq<u32>) -> bool {
    forall|a: int, b: int| 0 <= a < b < t.len() ==> #[trigger] t[a] < #[trigger] t[b]
}

/// Throws the waiting lines away once no figure is in play: each listed
/// line once, from the top, and the list is emptied. Returns the lines
/// thrown, in the order they were thrown.
pub fn throw_waiting_lines(pf: &mut Playfield, lines_to_throw: &mut Vec<u32>) -> (t: Vec<u32>)
    requires
        old(pf).wf(),
        forall|i: int| 0 <= i < old(lines_to_throw)@.len() ==> #[trigger] old(lines_to_throw)@[i] <= i32::MAX,
    ensures
        final(pf).wf(),
        final(pf).same_frame(old(pf)),
        final(lines_to_throw)@.len() == 0,
        ascending(t@),
        forall|v: u32| t@.contains(v) <==> old(lines_to_throw)@.contains(v),
        forall|x: int, y: int|
            final(pf).inside(x, y) ==> #[trigger] final(pf).block(x, y) == thrown_block(
                |a: int, b: int| old(pf).block(a, b),
                t@,
                x,
                y,
            ),
{
    let ghost lines0 = lines_to_throw@;
    let ghost pf0 = *pf;
    // The lines from the top, each once
    let mut t: Vec<u32> = Vec::new();
    let mut i: usize = 0;
    while i < lines_to_throw.len()
        invariant
            lines_to_throw@ == lines0,
            0 <= i <= lines0.len(),
            ascending(t@),
            forall|v: u32| t@.contains(v) <==> lines0.subrange(0, i as int).contains(v),
        decreases lines0.len() - i,
    {
        let v = lines_to_throw[i];
        let mut j: usize = 0;
        while j < t.len() && t[j] < v
            invariant
                0 <= j <= t@.len(),
                forall|a: int| 0 <= a < j ==> #[trigger] t@[a] < v,
            decreases t@.len() - j,
        {
            j = j + 1;
        }
        let ghost t0 = t@;
        if j == t.len() || t[j] != v {
            t.insert(j, v);
            proof {
                assert forall|a: int, b: int| 0 <= a < b < t@.len() implies #[trigger] t@[a] < #[trigger] t@[b] by {
                    if b < j {
                        assert(t@[a] == t0[a] && t@[b] == t0[b]);
                    } else if b == j {
                        assert(t@[a] == t0[a]);
                    } else if a < j {
                        assert(t@[a] == t0[a] && t@[b] == t0[b - 1]);
                        assert(t0[a] < v);
                        assert(v < t0[j as int]);
                        assert(j <= b - 1);
                        if j < b - 1 {
                            assert(t0[j as int] < t0[b - 1]);
                        }
                    } else if a == j {
                        assert(t@[b] == t0[b - 1]);
                        assert(v < t0[j as int]);
                        if j < b - 1 {
                            assert(t0[j as int] < t0[b - 1]);
                        }
                    } else {
                        assert(t@[a] == t0[a - 1] && t@[b] == t0[b - 1]);
                    }
                }
            }
        }
        proof {
            let s1 = lines0.subrange(0, i + 1);
            assert(s1 =~= lines0.subrange(0, i as int).push(v));
            assert forall|w: u32| t@.contains(w) <==> s1.contains(w) by {
                if t@.contains(w) {
                    let k = choose|k: int| 0 <= k < t@.len() && t@[k] == w;
                    if w != v {
                        if k < j {
                            assert(t0[k] == w);
                        } else if t@.len() > t0.len() {
                            assert(t0[k - 1] == w);
                        } else {
                            assert(t0[k] == w);
                        }
                        assert(t0.contains(w));
                        let s0 = lines0.subrange(0, i as int);
                        assert(s0.contains(w));
                        let k0 = choose|k: int| 0 <= k < s0.len() && s0[k] == w;
                        assert(s1[k0] == w);
                    } else {
                        assert(s1[i as int] == v);
                    }
                }
                if s1.contains(w) {
                    if w == v {
                        if t@.len() > t0.len() {
                            assert(t@[j as int] == v);
                        } else {
                            assert(t0[j as int] == v);
                            assert(t@[j as int] == v);
                        }
                    } else {
                        let k0 = choose|k: int| 0 <= k < s1.len() && s1[k] == w;
                        assert(lines0.subrange(0, i as int)[k0] == w);
                        assert(t0.contains(w));
                        let k = choose|k: int| 0 <= k < t0.len() && t0[k] == w;
                        if t@.len() > t0.len() {
                            if k < j {
                                assert(t@[k] == w);
                            } else {
                                assert(t@[k + 1] == w);
                            }
                        } else {
                            assert(t@[k] == w);
                        }
                    }
                }
            }
        }
        i = i + 1;
    }
    proof {
        assert(lines0.subrange(0, lines0.len() as int) =~= lines0);
        assert forall|k: int| 0 <= k < t@.len() implies #[trigger] t@[k] <= i32::MAX by {
            assert(t@.contains(t@[k]));
            assert(lines0.contains(t@[k]));
        }
    }
    let ghost b = |a: int, c: int| pf0.block(a, c);
    let mut k: usize = 0;
    while k < t.len()
        invariant
            pf.wf(),
            pf.same_frame(&pf0),
            pf0.wf(),
            0 <= k <= t@.len(),
            b == (|a: int, c: int| pf0.block(a, c)),
            forall|n: int| 0 <= n < t@.len() ==> #[trigger] t@[n] <= i32::MAX,
            forall|x: int, y: int|
                pf.inside(x, y) ==> #[trigger] pf.block(x, y) == thrown_block(b, t@.take(k as int), x, y),
        decreases t@.len() - k,
    {
        let ghost before = *pf;
        pf.throw_line(t[k]);
        proof {
            let tk = t@.take(k + 1);
            assert(tk.drop_last() =~= t@.take(k as int));
            assert(tk.last() == t@[k as int]);
            assert forall|x: int, y: int| pf.inside(x, y) implies #[trigger] pf.block(x, y) == thrown_block(
                b,
                tk,
                x,
                y,
            ) by {
                assert(pf.block(x, y) == before.after_throw(t@[k as int] as int, x, y));
                if y <= t@[k as int] && y >= 1 {
                    assert(before.inside(x, y - 1));
                }
            }
        }
        k = k + 1;
    }
    lines_to_throw.clear();
    proof {
        assert(t@.take(t@.len() as int) =~= t@);
    }
    t
}

} // verus!
