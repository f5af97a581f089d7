use vstd::prelude::*;

use crate::game::player::{MoveAndTime, PlayerCommon};
use crate::grid::figure::Figure;
use crate::grid::figure_pos::FigurePos;
use crate::grid::find::path_moves;
use crate::grid::find_path::{find_path, one_move_away, search_ok, search_path, trail};
use crate::grid::find_placement::{coords_of, faces_have_blocks, find_placement_quick, quick_placements};
use crate::grid::playfield::Playfield;
use crate::grid::pos_dir::PosDir;
use crate::movement::Movement;

verus! {

/// The levels of a path cut at each move down: the finished levels and
/// the moves gathered since the last move down.
pub open spec fn levels_of(path: Seq<(Movement, u64)>) -> (Seq<Seq<MoveAndTime>>, Seq<MoveAndTime>)
    decreases path.len(),
{
    if path.len() == 0 {
        (Seq::empty(), Seq::empty())
    } else {
        let prev = levels_of(path.drop_last());
        let e = path.last();
        if e.0 == Movement::MoveDown {
            (prev.0.push(prev.1), Seq::empty())
        } else {
            (prev.0, prev.1.push(MoveAndTime { movement: e.0, time: e.1 }))
        }
    }
}

/// The sideways and turning moves of a path, level by level: a new level
/// starts at every move down, and a last level without a move down
/// counts only when it has moves.
pub open spec fn per_height(path: Seq<(Movement, u64)>) -> Seq<Seq<MoveAndTime>> {
    let l = levels_of(path);
    if l.1.len() > 0 {
        l.0.push(l.1)
    } else {
        l.0
    }
}

/// Whether a step of a path is a move down.
pub open spec fn is_down() -> spec_fn((Movement, u64)) -> bool {
    |e: (Movement, u64)| e.0 == Movement::MoveDown
}

/// Whether a step of a path is a move other than down.
pub open spec fn is_aside() -> spec_fn((Movement, u64)) -> bool {
    |e: (Movement, u64)| e.0 != Movement::MoveDown
}

/// A step of a path as a timed move.
pub open spec fn timed(e: (Movement, u64)) -> MoveAndTime {
    MoveAndTime { movement: e.0, time: e.1 }
}

/// The moves of a path other than the moves down, in order, with their
/// times.
pub open spec fn aside_moves(path: Seq<(Movement, u64)>) -> Seq<MoveAndTime> {
    path.filter(is_aside()).map_values(|e: (Movement, u64)| timed(e))
}

proof fn lemma_levels_flatten(path: Seq<(Movement, u64)>)
    ensures
        levels_of(path).0.flatten() + levels_of(path).1 == aside_moves(path),
        levels_of(path).0.len() == path.filter(is_down()).len(),
        levels_of(path).1.len() > 0 <==> (path.len() > 0 && path.last().0 != Movement::MoveDown),
    decreases path.len(),
{
    broadcast use vstd::seq_lib::group_seq_properties;

    if path.len() == 0 {
        assert(path.filter(is_aside()) =~= Seq::<(Movement, u64)>::empty()) by {
            reveal(Seq::filter);
        }
        assert(path.filter(is_down()) =~= Seq::<(Movement, u64)>::empty()) by {
            reveal(Seq::filter);
        }
        assert(aside_moves(path) =~= Seq::<MoveAndTime>::empty());
        assert(levels_of(path).0.flatten() =~= Seq::<MoveAndTime>::empty());
    } else {
        let init = path.drop_last();
        let e = path.last();
        lemma_levels_flatten(init);
        assert(init.push(e) =~= path);
        init.lemma_filter_push(e, is_aside());
        init.lemma_filter_push(e, is_down());
        let prev = levels_of(init);
        if e.0 == Movement::MoveDown {
            prev.0.lemma_flatten_push(prev.1);
            assert(path.filter(is_aside()) == init.filter(is_aside()));
            assert(aside_moves(path) == aside_moves(init));
            assert(levels_of(path).1.len() == 0);
        } else {
            assert(path.filter(is_aside()) == init.filter(is_aside()).push(e));
            assert(aside_moves(path) =~= aside_moves(init).push(timed(e)));
            assert(levels_of(path).0.flatten() + levels_of(path).1 =~= prev.0.flatten() + prev.1.push(timed(e)));
        }
    }
}

/// Cutting a path into levels keeps every move other than a move down, in
/// order and with its time, and nothing else; there is a level for each
/// move down, and one more for the moves after the last one, when the
/// path ends with a move other than down.
pub proof fn law_per_height(path: Seq<(Movement, u64)>)
    ensures
        per_height(path).flatten() == aside_moves(path),
        per_height(path).len() == path.filter(is_down()).len() + if path.len() > 0 && path.last().0
            != Movement::MoveDown {
            1int
        } else {
            0int
        },
{
    lemma_levels_flatten(path);
    let l = levels_of(path);
    if l.1.len() > 0 {
        l.0.lemma_flatten_push(l.1);
    } else {
        assert(l.1 =~= Seq::<MoveAndTime>::empty());
        assert(l.0.flatten() + l.1 =~= l.0.flatten());
    }
}

proof fn lemma_levels_grow(path: Seq<(Movement, u64)>, j: int, k: int)
    requires
        0 <= j <= k <= path.len(),
    ensures
        levels_of(path.take(k)).0.len() >= levels_of(path.take(j)).0.len(),
        levels_of(path.take(k)).0.take(levels_of(path.take(j)).0.len() as int) == levels_of(path.take(j)).0,
    decreases k - j,
{
    if k > j {
        lemma_levels_grow(path, j, k - 1);
        let t = path.take(k);
        assert(t.drop_last() =~= path.take(k - 1));
        let a = levels_of(path.take(k - 1)).0;
        let n = levels_of(path.take(j)).0.len() as int;
        let b = levels_of(t).0;
        assert(b.take(n) =~= a.take(n)) by {
            if t.last().0 == Movement::MoveDown {
                assert(b == a.push(levels_of(path.take(k - 1)).1));
            }
        }
    } else {
        assert(levels_of(path.take(k)).0.take(levels_of(path.take(j)).0.len() as int) =~= levels_of(path.take(j)).0);
    }
}

/// Up to each move down, the levels are those of the path cut there: the
/// moves before a move down never reach a later level, and the moves after
/// it never an earlier one.
pub proof fn law_per_height_prefix(path: Seq<(Movement, u64)>, j: int)
    requires
        0 <= j < path.len(),
        path[j].0 == Movement::MoveDown,
    ensures
        per_height(path).len() >= per_height(path.take(j + 1)).len(),
        per_height(path).take(per_height(path.take(j + 1)).len() as int) == per_height(path.take(j + 1)),
{
    let t = path.take(j + 1);
    assert(t.drop_last() =~= path.take(j));
    assert(t.last() == path[j]);
    assert(levels_of(t).1.len() == 0);
    lemma_levels_grow(path, j + 1, path.len() as int);
    assert(path.take(path.len() as int) =~= path);
    let l = levels_of(path);
    let n = levels_of(t).0.len() as int;
    if l.1.len() > 0 {
        assert(l.0.push(l.1).take(n) =~= l.0.take(n));
    }
}

/// The moves of a list of levels.
pub open spec fn level_views(v: Seq<Vec<MoveAndTime>>) -> Seq<Seq<MoveAndTime>> {
    v.map_values(|l: Vec<MoveAndTime>| l@)
}

/// The moves of one level, each due `step` after the one before, the
/// first `step` after `ticks`.
pub open spec fn spaced(moves: Seq<MoveAndTime>, ticks: int, step: int) -> Seq<MoveAndTime> {
    Seq::new(
        moves.len(),
        |i: int| MoveAndTime { movement: moves[i].movement, time: (ticks + (i + 1) * step) as u64 },
    )
}

pub fn path_to_per_height(path: Vec<(Movement, u64)>) -> (r: Vec<Vec<MoveAndTime>>)
    ensures
        level_views(r@) == per_height(path@),
        level_views(r@).flatten() == aside_moves(path@),
        r@.len() == path@.filter(is_down()).len() + if path@.len() > 0 && path@.last().0 != Movement::MoveDown {
            1int
        } else {
            0int
        },
{
    let mut moves: Vec<Vec<MoveAndTime>> = Vec::new();
    let mut current_level: Vec<MoveAndTime> = Vec::new();
    let mut i: usize = 0;
    while i < path.len()
        invariant
            0 <= i <= path@.len(),
            level_views(moves@) == levels_of(path@.subrange(0, i as int)).0,
            current_level@ == levels_of(path@.subrange(0, i as int)).1,
        decreases path@.len() - i,
    {
        let (movement, time) = path[i];
        proof {
            let s1 = path@.subrange(0, i + 1);
            assert(s1.drop_last() =~= path@.subrange(0, i as int));
            assert(s1.last() == path@[i as int]);
        }
        if movement == Movement::MoveDown {
            let level = current_level;
            current_level = Vec::new();
            let ghost before = moves@;
            moves.push(level);
            assert(level_views(moves@) =~= level_views(before).push(level@));
        } else {
            current_level.push(MoveAndTime { movement: movement, time: time });
        }
        i = i + 1;
    }
    assert(path@.subrange(0, path@.len() as int) =~= path@);
    if current_level.len() > 0 {
        let ghost before = moves@;
        moves.push(current_level);
        assert(level_views(moves@) =~= level_views(before).push(current_level@));
    }
    proof {
        law_per_height(path@);
        assert(level_views(moves@).len() == moves@.len());
    }
    return moves;
}

/// When the figure has moved down to row `y` (read as an index) and the
/// plan has moves for that row, queues them spread evenly over the time to the next forced
/// move down.
pub fn follow_path(
    player: &mut PlayerCommon,
    path_per_height: &Vec<Vec<MoveAndTime>>,
    ticks: u64,
    fig_pos: &FigurePos,
    movement: &Movement,
)
    requires
        old(player).wf(),
        ticks + old(player).fdt() <= u64::MAX,
        forall|i: int| 0 <= i < path_per_height@.len() ==> (#[trigger] path_per_height@[i])@.len() < usize::MAX,
    ensures
        final(player).wf(),
        final(player).same_but_moves(old(player)),
        ({
            let y = (fig_pos.pos_spec().y as usize) as int;
            let levels = level_views(path_per_height@);
            if *movement == Movement::MoveDown && y < levels.len() {
                let moves = levels[y];
                final(player).queue() == old(player).queue() + spaced(
                    moves,
                    ticks as int,
                    (old(player).fdt() as int) / (moves.len() + 1) as int,
                )
            } else {
                final(player).queue() == old(player).queue() && final(player).last_moves() == old(
                    player,
                ).last_moves()
            }
        }),
{
    let y = fig_pos.get_position().get_y() as usize;
    if *movement == Movement::MoveDown && y < path_per_height.len() {
        let moves = &path_per_height[y];
        let ghost levels = level_views(path_per_height@);
        assert(moves@ == levels[y as int]);
        let n = moves.len();
        let fdt = player.force_down_time();
        let time_between_moves = fdt / (n + 1) as u64;
        let ghost q0 = player.queue();
        proof {
            let d: int = n + 1;
            vstd::arithmetic::div_mod::lemma_fundamental_div_mod(fdt as int, d);
            assert(time_between_moves == (fdt as int) / d);
            assert(d * ((fdt as int) / d) <= fdt);
            assert(time_between_moves * (n + 1) == d * ((fdt as int) / d)) by (nonlinear_arith)
                requires
                    time_between_moves == (fdt as int) / d,
                    d == n + 1,
            ;
        }
        let mut movement_time = ticks;
        let mut i: usize = 0;
        while i < n
            invariant
                player.wf(),
                player.same_but_moves(old(player)),
                player.fdt() == fdt,
                ticks + fdt <= u64::MAX,
                n == moves@.len(),
                time_between_moves == (fdt as int) / ((n + 1) as int),
                time_between_moves * (n + 1) <= fdt,
                0 <= i <= n,
                movement_time == ticks + i * time_between_moves,
                player.queue() == q0 + spaced(moves@, ticks as int, time_between_moves as int).subrange(0, i as int),
            decreases n - i,
        {
            assert((i + 1) * time_between_moves <= time_between_moves * (n + 1)) by (nonlinear_arith)
                requires
                    i < n,
            ;
            assert(i * time_between_moves + time_between_moves == (i + 1) * time_between_moves) by (nonlinear_arith);
            movement_time = movement_time + time_between_moves;
            let ghost before = player.queue();
            player.add_move(moves[i].movement, movement_time);
            assert(player.queue() =~= q0 + spaced(moves@, ticks as int, time_between_moves as int).subrange(0, i + 1));
            i = i + 1;
        }
        assert(spaced(moves@, ticks as int, time_between_moves as int).subrange(0, n as int) =~= spaced(
            moves@,
            ticks as int,
            time_between_moves as int,
        ));
    }
}

/// The places where the figure can rest once it is lifted off the
/// playfield, and the playfield without it.
pub fn placings_for(pf: &Playfield, fig_pos: &FigurePos) -> (r: (Playfield, Vec<PosDir>))
    requires
        pf.wf(),
        fig_pos.wf(),
        fig_pos.fig_spec().fits_at(fig_pos.pos_spec().x as int, fig_pos.pos_spec().y as int),
        fig_pos.fig_spec().fits_at(pf.w(), pf.h()),
    ensures
        r.0.wf(),
        r.0.same_frame(pf),
        forall|x: int, y: int|
            r.0.inside(x, y) ==> #[trigger] r.0.block(x, y) == (if crate::grid::playfield::covers(
                fig_pos.face_spec(),
                (fig_pos.pos_spec().x as int, fig_pos.pos_spec().y as int),
                (x, y),
            ) {
                crate::grid::playfield::cleared()
            } else {
                pf.block(x, y)
            }),
        coords_of(r.1@) == quick_placements(&r.0, &fig_pos.fig_spec(), fig_pos.fig_spec().num_faces()),
{
    let mut pf_no_fig = pf.duplicate();
    fig_pos.remove(&mut pf_no_fig);
    let avail_placing = find_placement_quick(&pf_no_fig, fig_pos);
    (pf_no_fig, avail_placing)
}

/// Reverses a path into the order its moves are made.
fn reversed(path: &Vec<(Movement, u64)>) -> (r: Vec<(Movement, u64)>)
    ensures
        r@ == path@.reverse(),
{
    let mut r: Vec<(Movement, u64)> = Vec::new();
    let n = path.len();
    let mut i: usize = n;
    while i > 0
        invariant
            0 <= i <= n,
            n == path@.len(),
            r@ == path@.subrange(i as int, n as int).reverse(),
        decreases i,
    {
        i = i - 1;
        r.push(path[i]);
        assert(r@ =~= path@.subrange(i as int, n as int).reverse());
    }
    assert(path@.subrange(0, n as int) =~= path@);
    r
}

/// The path the search finds to the first target, in the given order from
/// the `i`-th on, to which it finds one; no moves when it finds none.
pub open spec fn first_path(
    pf: &Playfield,
    fig: &Figure,
    start: PosDir,
    targets: Seq<PosDir>,
    move_time: u64,
    down_time: u64,
    i: int,
) -> Seq<(Movement, u64)>
    decreases targets.len() - i,
{
    if i < 0 || i >= targets.len() {
        Seq::empty()
    } else {
        let p = search_path(pf, fig, start, targets[i], move_time, down_time);
        if p.len() > 0 {
            p
        } else {
            first_path(pf, fig, start, targets, move_time, down_time, i + 1)
        }
    }
}

/// A path with moves has at least one level.
proof fn lemma_levels_nonempty(path: Seq<(Movement, u64)>)
    requires
        path.len() > 0,
    ensures
        per_height(path).len() > 0,
{
}

/// Searches a path to each target in turn until one is found, and cuts it
/// into levels; no levels when no path was found.
pub fn plan_path(
    pf: &Playfield,
    fig_pos: &FigurePos,
    targets: &Vec<PosDir>,
    move_time: u64,
    force_down_time: u64,
) -> (r: Vec<Vec<MoveAndTime>>)
    requires
        fig_pos.wf(),
        search_ok(pf, &fig_pos.fig_spec(), fig_pos.pos_spec(), move_time, force_down_time),
    ensures
        exists|path: Seq<(Movement, u64)>|
            level_views(r@) == #[trigger] per_height(path.reverse()) && (path.len() == 0 || exists|k: int|
                0 <= k < targets@.len() && trail(
                    pf,
                    &fig_pos.fig_spec(),
                    fig_pos.pos_spec().coords(),
                    path_moves(path),
                    targets@[k].coords(),
                )),
        (exists|k: int|
            0 <= k < targets@.len() && one_move_away(
                &fig_pos.fig_spec(),
                fig_pos.pos_spec(),
                #[trigger] targets@[k],
                move_time,
                force_down_time,
            )) ==> r@.len() > 0,
        level_views(r@) == per_height(
            first_path(pf, &fig_pos.fig_spec(), fig_pos.pos_spec(), targets@, move_time, force_down_time, 0).reverse(),
        ),
{
    let mut path: Vec<(Movement, u64)> = Vec::new();
    let mut k: usize = 0;
    while k < targets.len()
        invariant
            fig_pos.wf(),
            search_ok(pf, &fig_pos.fig_spec(), fig_pos.pos_spec(), move_time, force_down_time),
            0 <= k <= targets@.len(),
            path@.len() == 0,
            first_path(pf, &fig_pos.fig_spec(), fig_pos.pos_spec(), targets@, move_time, force_down_time, 0)
                == first_path(pf, &fig_pos.fig_spec(), fig_pos.pos_spec(), targets@, move_time, force_down_time, k as int),
            forall|j: int|
                0 <= j < k ==> !one_move_away(
                    &fig_pos.fig_spec(),
                    fig_pos.pos_spec(),
                    #[trigger] targets@[j],
                    move_time,
                    force_down_time,
                ),
        decreases targets@.len() - k,
    {
        let found = find_path(
            pf,
            fig_pos.get_figure(),
            fig_pos.get_position(),
            &targets[k],
            move_time,
            force_down_time,
        );
        if found.len() > 0 {
            path = found;
            let forward = reversed(&path);
            let r = path_to_per_height(forward);
            assert(level_views(r@) == per_height(path@.reverse()));
            proof {
                lemma_levels_nonempty(path@.reverse());
                assert(level_views(r@).len() == r@.len());
            }
            return r;
        }
        k = k + 1;
    }
    let r: Vec<Vec<MoveAndTime>> = Vec::new();
    assert(level_views(r@) =~= per_height(path@.reverse()));
    r
}

} // verus!
