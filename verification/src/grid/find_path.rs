use vstd::prelude::*;

use crate::coords::count::{lemma_total_ext, lemma_total_nonneg, total};
use crate::grid::figure::Figure;
use crate::grid::find::{pace_clock, paced, path_moves, stepped, waited};
use crate::grid::find_placement::{faces_have_blocks, free, lemma_fits_mono, lemma_free_bounds};
use crate::grid::playfield::Playfield;
use crate::grid::pos_dir::{lemma_norm_dir_bounds, move_delta, norm_dir, PosDir};
use crate::movement::Movement;

verus! {

/// The widest (`wide`) or tallest of the first `k` faces.
pub open spec fn extent(fig: &Figure, k: int, wide: bool) -> int
    decreases k,
{
    if k <= 0 {
        0
    } else {
        let f = fig.faces_spec()[k - 1];
        let e = if wide {
            f.width()
        } else {
            f.height()
        };
        let m = extent(fig, k - 1, wide);
        if e > m {
            e
        } else {
            m
        }
    }
}

proof fn lemma_extent(fig: &Figure, k: int, wide: bool)
    requires
        fig.wf(),
        0 <= k <= fig.num_faces(),
    ensures
        0 <= extent(fig, k, wide) <= i32::MAX,
        forall|i: int|
            0 <= i < k ==> (if wide {
                (#[trigger] fig.faces_spec()[i]).width()
            } else {
                fig.faces_spec()[i].height()
            }) <= extent(fig, k, wide),
    decreases k,
{
    if k > 0 {
        lemma_extent(fig, k - 1, wide);
        fig.lemma_face_tl(k - 1);
    }
}

/// The moves `ms` take the figure from `p` to `e`, every place on the way
/// free; the last place need not be.
pub open spec fn trail(pf: &Playfield, fig: &Figure, p: (int, int, int), ms: Seq<Movement>, e: (int, int, int)) -> bool
    decreases ms.len(),
{
    if ms.len() == 0 {
        p == e
    } else if ms.len() == 1 {
        stepped(p, ms[0], fig.num_faces()) == e
    } else {
        let q = stepped(p, ms[0], fig.num_faces());
        &&& free(pf, fig, q)
        &&& trail(pf, fig, q, ms.drop_first(), e)
    }
}

/// The estimated distance between two places: the differences in column
/// and direction.
pub open spec fn pos_est(a: (int, int, int), b: (int, int, int)) -> int {
    (if a.0 >= b.0 {
        a.0 - b.0
    } else {
        b.0 - a.0
    }) + (if a.2 >= b.2 {
        a.2 - b.2
    } else {
        b.2 - a.2
    })
}

/// The box holding every free place of a search: columns from minus the
/// widest face to the right edge, rows from minus the tallest face to the
/// bottom, directions from minus the number of faces to it.
pub open spec fn box_w(pf: &Playfield, fig: &Figure) -> int {
    pf.w() + extent(fig, fig.num_faces(), true)
}

pub open spec fn box_h(pf: &Playfield, fig: &Figure) -> int {
    pf.h() + extent(fig, fig.num_faces(), false)
}

pub open spec fn box_d(fig: &Figure) -> int {
    2 * fig.num_faces()
}

/// The number of places in the box.
pub open spec fn box_size(pf: &Playfield, fig: &Figure) -> int {
    box_w(pf, fig) * box_h(pf, fig) * box_d(fig)
}

pub open spec fn in_box(pf: &Playfield, fig: &Figure, p: (int, int, int)) -> bool {
    &&& -extent(fig, fig.num_faces(), true) <= p.0 < pf.w()
    &&& -extent(fig, fig.num_faces(), false) <= p.1 < pf.h()
    &&& -fig.num_faces() <= p.2 < fig.num_faces()
}

pub open spec fn box_index(pf: &Playfield, fig: &Figure, p: (int, int, int)) -> int {
    ((p.2 + fig.num_faces()) * box_h(pf, fig) + (p.1 + extent(fig, fig.num_faces(), false))) * box_w(pf, fig) + (
    p.0 + extent(fig, fig.num_faces(), true))
}

pub open spec fn box_point(pf: &Playfield, fig: &Figure, i: int) -> (int, int, int) {
    let w = box_w(pf, fig);
    let h = box_h(pf, fig);
    (
        i % w - extent(fig, fig.num_faces(), true),
        (i / w) % h - extent(fig, fig.num_faces(), false),
        i / (w * h) - fig.num_faces(),
    )
}

proof fn lemma_box_roundtrip(w: int, h: int, d: int, a: int, b: int, c: int)
    requires
        0 <= a < w,
        0 <= b < h,
        0 <= c < d,
    ensures
        0 <= (c * h + b) * w + a < w * h * d,
        ((c * h + b) * w + a) % w == a,
        (((c * h + b) * w + a) / w) % h == b,
        ((c * h + b) * w + a) / (w * h) == c,
{
    let q = c * h + b;
    let i = q * w + a;
    assert(0 <= q < h * d) by (nonlinear_arith)
        requires
            0 <= b < h,
            0 <= c < d,
            q == c * h + b,
    ;
    assert(0 <= i < w * h * d) by (nonlinear_arith)
        requires
            0 <= a < w,
            0 <= q < h * d,
            i == q * w + a,
    ;
    vstd::arithmetic::div_mod::lemma_fundamental_div_mod_converse(i, w, q, a);
    vstd::arithmetic::div_mod::lemma_fundamental_div_mod_converse(q, h, c, b);
    vstd::arithmetic::div_mod::lemma_div_denominator(i, w, h);
}

proof fn lemma_box(pf: &Playfield, fig: &Figure, p: (int, int, int))
    requires
        fig.wf(),
        0 < fig.num_faces(),
        pf.w() >= 0,
        pf.h() >= 0,
        in_box(pf, fig, p),
    ensures
        0 <= box_index(pf, fig, p) < box_size(pf, fig),
        box_point(pf, fig, box_index(pf, fig, p)) == p,
{
    lemma_extent(fig, fig.num_faces(), true);
    lemma_extent(fig, fig.num_faces(), false);
    lemma_box_roundtrip(
        box_w(pf, fig),
        box_h(pf, fig),
        box_d(fig),
        p.0 + extent(fig, fig.num_faces(), true),
        p.1 + extent(fig, fig.num_faces(), false),
        p.2 + fig.num_faces(),
    );
}

/// A free place with a direction among the faces lies in the box.
proof fn lemma_free_in_box(pf: &Playfield, fig: &Figure, p: (int, int, int))
    requires
        pf.wf(),
        fig.wf(),
        0 < fig.num_faces() <= i32::MAX,
        faces_have_blocks(fig),
        free(pf, fig, p),
        -fig.num_faces() < p.2 < fig.num_faces(),
    ensures
        in_box(pf, fig, p),
{
    lemma_free_bounds(pf, fig, p);
    let n = fig.num_faces();
    let k = ((p.2 as i32) as usize) as int % n;
    assert(0 <= k < n);
    assert(fig.faces_spec()[k] == fig.face_for(p.2 as i32));
    lemma_extent(fig, n, true);
    lemma_extent(fig, n, false);
    assert(fig.faces_spec()[k].width() <= extent(fig, n, true));
    assert(fig.faces_spec()[k].height() <= extent(fig, n, false));
}

/// A sum of terms each no larger than another's is no larger; with one
/// term smaller, it is smaller.
proof fn lemma_total_le(a: spec_fn(int) -> int, b: spec_fn(int) -> int, n: int, k: int)
    requires
        forall|i: int| 0 <= i < n ==> #[trigger] a(i) <= b(i),
    ensures
        total(a, n) <= total(b, n),
        0 <= k < n && a(k) < b(k) ==> total(a, n) < total(b, n),
    decreases n,
{
    if n > 0 {
        lemma_total_le(a, b, n - 1, k);
    }
}


/// An open entry of the search: a node and its total estimate.
#[derive(Clone, Copy, Debug)]
pub struct NodeIdAndEst {
    pub id: usize,
    pub est: u64,
}

/// A node of the search: a place, how it was reached and when.
#[derive(Clone, Copy, Debug)]
pub struct Node {
    pub id: usize,
    pub pid: Option<usize>,
    pub pos: PosDir,
    pub walked: u64,  // g
    pub est_end: u64,  // h
    pub mvmnt: Option<Movement>,
    pub time: u64,
    pub last_time_move: u64,
    pub last_time_down: u64,
}

impl Node {
    /// The walked distance and the estimate to the end together.
    pub open spec fn tot(self) -> int {
        self.walked + self.est_end
    }
}

/// The first entry with the lowest estimate among the first `i` entries.
pub open spec fn best_upto(open: Seq<NodeIdAndEst>, i: int) -> int
    decreases i,
{
    if i <= 1 {
        0
    } else {
        let b = best_upto(open, i - 1);
        if open[i - 1].est < open[b].est {
            i - 1
        } else {
            b
        }
    }
}

/// The moves tried from a node: left, right, the turns and down when a
/// regular move is due before the next fall, else only down.
pub open spec fn moves_from(q: Node, move_time: u64, down_time: u64) -> Seq<Movement> {
    if move_time - (q.time - q.last_time_move) < down_time - (q.time - q.last_time_down) {
        seq![
            Movement::MoveLeft,
            Movement::MoveRight,
            Movement::RotateCW,
            Movement::RotateCCW,
            Movement::MoveDown,
        ]
    } else {
        seq![Movement::MoveDown]
    }
}

/// The time still to wait, never below zero.
pub open spec fn wait_for(until: int) -> int {
    if until > 0 {
        until
    } else {
        0
    }
}

/// The node made from `q` by movement `m`, numbered `id`: the new place,
/// one more step walked, the estimate to the end, and the time of the move,
/// which waits for the fall or for the next regular move.
pub open spec fn moved_node(
    q: Node,
    m: Movement,
    id: int,
    nf: int,
    end: PosDir,
    move_time: u64,
    down_time: u64,
) -> Node {
    let d = move_delta(m);
    let pos = PosDir { x: (q.pos.x + d.0) as i32, y: (q.pos.y + d.1) as i32, z: norm_dir(q.pos.z + d.2, nf) as i32 };
    let down = m == Movement::MoveDown;
    let t = if down {
        q.time + wait_for(down_time - (q.time - q.last_time_down))
    } else {
        q.time + wait_for(move_time - (q.time - q.last_time_move))
    };
    Node {
        id: id as usize,
        pid: Some(q.id),
        pos: pos,
        walked: (q.walked + 1) as u64,
        est_end: pos_est(pos.coords(), end.coords()) as u64,
        mvmnt: Some(m),
        time: t as u64,
        last_time_move: if down {
            q.last_time_move
        } else {
            t as u64
        },
        last_time_down: if down {
            t as u64
        } else {
            q.last_time_down
        },
    }
}

/// The nodes made from `q` by each of the moves `ms`, numbered from `base`.
pub open spec fn expanded(
    q: Node,
    ms: Seq<Movement>,
    base: int,
    nf: int,
    end: PosDir,
    move_time: u64,
    down_time: u64,
) -> Seq<Node> {
    Seq::new(ms.len(), |j: int| moved_node(q, ms[j], base + j, nf, end, move_time, down_time))
}

/// No other node at the node's place has a total estimate as low.
pub open spec fn lowest_at(nodes: Seq<Node>, s: Node) -> bool {
    forall|j: int|
        0 <= j < nodes.len() && (#[trigger] nodes[j]).id != s.id && nodes[j].pos == s.pos ==> nodes[j].tot()
            > s.tot()
}

/// The first `k` new nodes looked at in turn: the search ends at the first
/// one at the end; the others are opened where the figure fits and no
/// other node there has as low a total estimate.
pub open spec fn scanned(
    pf: &Playfield,
    fig: &Figure,
    end: PosDir,
    nodes: Seq<Node>,
    open: Seq<NodeIdAndEst>,
    succ: Seq<Node>,
    k: int,
) -> (Seq<NodeIdAndEst>, Option<int>)
    decreases k,
{
    if k <= 0 {
        (open, None)
    } else {
        let prev = scanned(pf, fig, end, nodes, open, succ, k - 1);
        let s = succ[k - 1];
        if prev.1 is Some {
            prev
        } else if s.pos == end {
            (prev.0, Some(s.id as int))
        } else if !pf.collides(fig.face_for(s.pos.z), (s.pos.x as int, s.pos.y as int)) && lowest_at(nodes, s) {
            (prev.0.push(NodeIdAndEst { id: s.id, est: s.tot() as u64 }), None)
        } else {
            prev
        }
    }
}

/// Where the search stands: its nodes, the open entries, whether it is
/// over and the node at the end it found.
pub struct SearchState {
    pub nodes: Seq<Node>,
    pub open: Seq<NodeIdAndEst>,
    pub over: bool,
    pub found: Option<int>,
}

/// The search before its first round: the start node, open.
pub open spec fn search_start(start: PosDir, end: PosDir) -> SearchState {
    let n0 = Node {
        id: 0,
        pid: None,
        pos: start,
        walked: 0,
        est_end: pos_est(start.coords(), end.coords()) as u64,
        mvmnt: None,
        time: 0,
        last_time_move: 0,
        last_time_down: 0,
    };
    SearchState { nodes: seq![n0], open: seq![NodeIdAndEst { id: 0, est: n0.tot() as u64 }], over: false, found: None }
}

/// One round of the search: take the open entry with the lowest estimate
/// (the first such), make its new nodes and look at them in turn; with
/// nothing open the search is over.
#[verifier::opaque]
pub open spec fn search_round(
    pf: &Playfield,
    fig: &Figure,
    end: PosDir,
    move_time: u64,
    down_time: u64,
    st: SearchState,
) -> SearchState {
    if st.over {
        st
    } else if st.open.len() == 0 {
        SearchState { over: true, found: None, ..st }
    } else {
        let b = best_upto(st.open, st.open.len() as int);
        let q = st.nodes[st.open[b].id as int];
        let succ = expanded(
            q,
            moves_from(q, move_time, down_time),
            st.nodes.len() as int,
            fig.num_faces(),
            end,
            move_time,
            down_time,
        );
        let nodes = st.nodes + succ;
        let sc = scanned(pf, fig, end, nodes, st.open.remove(b), succ, succ.len() as int);
        SearchState { nodes: nodes, open: sc.0, over: sc.1 is Some, found: sc.1 }
    }
}

/// The search after `k` rounds.
pub open spec fn search_after(
    pf: &Playfield,
    fig: &Figure,
    start: PosDir,
    end: PosDir,
    move_time: u64,
    down_time: u64,
    k: nat,
) -> SearchState
    decreases k,
{
    if k == 0 {
        search_start(start, end)
    } else {
        search_round(pf, fig, end, move_time, down_time, search_after(pf, fig, start, end, move_time, down_time, (k - 1) as nat))
    }
}

/// The moves and times from the first node to node `i`, last move first.
pub open spec fn node_path(nodes: Seq<Node>, i: int) -> Seq<(Movement, u64)>
    decreases i,
{
    if 0 < i < nodes.len() && nodes[i].pid is Some && nodes[i].pid->0 < i && nodes[i].mvmnt is Some {
        seq![(nodes[i].mvmnt->0, nodes[i].time)] + node_path(nodes, nodes[i].pid->0 as int)
    } else {
        Seq::empty()
    }
}

/// The path the search finds from `start` to `end`: rounds are run until
/// the search is over; the path to the node found at the end, last move
/// first, or no moves when the open entries ran out first.
pub open spec fn search_path(
    pf: &Playfield,
    fig: &Figure,
    start: PosDir,
    end: PosDir,
    move_time: u64,
    down_time: u64,
) -> Seq<(Movement, u64)> {
    let k = choose|k: nat| #[trigger] search_after(pf, fig, start, end, move_time, down_time, k).over;
    let st = search_after(pf, fig, start, end, move_time, down_time, k);
    match st.found {
        Some(i) => node_path(st.nodes, i),
        None => Seq::empty(),
    }
}

/// Once over, the search stays as it is.
proof fn lemma_search_over(
    pf: &Playfield,
    fig: &Figure,
    start: PosDir,
    end: PosDir,
    move_time: u64,
    down_time: u64,
    k1: nat,
    k2: nat,
)
    requires
        k1 <= k2,
        search_after(pf, fig, start, end, move_time, down_time, k1).over,
    ensures
        search_after(pf, fig, start, end, move_time, down_time, k2) == search_after(
            pf,
            fig,
            start,
            end,
            move_time,
            down_time,
            k1,
        ),
    decreases k2 - k1,
{
    reveal(search_round);
    if k1 < k2 {
        lemma_search_over(pf, fig, start, end, move_time, down_time, k1, (k2 - 1) as nat);
    }
}

/// A search over after `k` rounds finds the path of its last state.
proof fn lemma_search_path(
    pf: &Playfield,
    fig: &Figure,
    start: PosDir,
    end: PosDir,
    move_time: u64,
    down_time: u64,
    k: nat,
)
    requires
        search_after(pf, fig, start, end, move_time, down_time, k).over,
    ensures
        search_path(pf, fig, start, end, move_time, down_time) == (match search_after(
            pf,
            fig,
            start,
            end,
            move_time,
            down_time,
            k,
        ).found {
            Some(i) => node_path(search_after(pf, fig, start, end, move_time, down_time, k).nodes, i),
            None => Seq::empty(),
        }),
{
    let k2 = choose|k: nat| #[trigger] search_after(pf, fig, start, end, move_time, down_time, k).over;
    if k2 <= k {
        lemma_search_over(pf, fig, start, end, move_time, down_time, k2, k);
    } else {
        lemma_search_over(pf, fig, start, end, move_time, down_time, k, k2);
    }
}

/// The state after looking at all the new nodes of a round.
spec fn after_scan(
    pf: &Playfield,
    fig: &Figure,
    end: PosDir,
    nodes: Seq<Node>,
    open: Seq<NodeIdAndEst>,
    succ: Seq<Node>,
) -> SearchState {
    let sc = scanned(pf, fig, end, nodes, open, succ, succ.len() as int);
    SearchState { nodes: nodes, open: sc.0, over: sc.1 is Some, found: sc.1 }
}

/// A round taken from a state with open entries.
proof fn lemma_round(
    pf: &Playfield,
    fig: &Figure,
    start: PosDir,
    end: PosDir,
    move_time: u64,
    down_time: u64,
    k: nat,
    nodes: Seq<Node>,
    open: Seq<NodeIdAndEst>,
    q: Node,
    succ: Seq<Node>,
)
    requires
        search_after(pf, fig, start, end, move_time, down_time, k) == (SearchState {
            nodes: nodes,
            open: open,
            over: false,
            found: None,
        }),
        open.len() > 0,
        q == nodes[open[best_upto(open, open.len() as int)].id as int],
        succ == expanded(
            q,
            moves_from(q, move_time, down_time),
            nodes.len() as int,
            fig.num_faces(),
            end,
            move_time,
            down_time,
        ),
    ensures
        search_after(pf, fig, start, end, move_time, down_time, k + 1) == after_scan(
            pf,
            fig,
            end,
            nodes + succ,
            open.remove(best_upto(open, open.len() as int)),
            succ,
        ),
{
    reveal(search_round);
}

/// With nothing open, the next round ends the search without a path.
proof fn lemma_round_empty(
    pf: &Playfield,
    fig: &Figure,
    start: PosDir,
    end: PosDir,
    move_time: u64,
    down_time: u64,
    k: nat,
)
    requires
        !search_after(pf, fig, start, end, move_time, down_time, k).over,
        search_after(pf, fig, start, end, move_time, down_time, k).open.len() == 0,
    ensures
        search_path(pf, fig, start, end, move_time, down_time) == Seq::<(Movement, u64)>::empty(),
{
    reveal(search_round);
    assert(search_after(pf, fig, start, end, move_time, down_time, k + 1).over);
    lemma_search_path(pf, fig, start, end, move_time, down_time, k + 1);
}

/// Once the end was found among the first new nodes, looking at more keeps
/// it.
proof fn lemma_scanned_found(
    pf: &Playfield,
    fig: &Figure,
    end: PosDir,
    nodes: Seq<Node>,
    open: Seq<NodeIdAndEst>,
    succ: Seq<Node>,
    k1: int,
    k2: int,
)
    requires
        0 <= k1 <= k2,
        scanned(pf, fig, end, nodes, open, succ, k1).1 is Some,
    ensures
        scanned(pf, fig, end, nodes, open, succ, k2) == scanned(pf, fig, end, nodes, open, succ, k1),
    decreases k2 - k1,
{
    if k1 < k2 {
        lemma_scanned_found(pf, fig, end, nodes, open, succ, k1, k2 - 1);
    }
}

/// The places from the first node to node `i`, following the parents.
spec fn chain(nodes: Seq<Node>, i: int) -> Seq<(int, int, int)>
    decreases i,
{
    if i <= 0 {
        seq![nodes[0].pos.coords()]
    } else if nodes[i].pid is Some && 0 <= nodes[i].pid->0 < i {
        chain(nodes, nodes[i].pid->0 as int).push(nodes[i].pos.coords())
    } else {
        seq![nodes[i].pos.coords()]
    }
}

/// The moves from the first node to node `i`, following the parents.
spec fn route(nodes: Seq<Node>, i: int) -> Seq<Movement>
    decreases i,
{
    if i <= 0 {
        Seq::empty()
    } else if nodes[i].pid is Some && 0 <= nodes[i].pid->0 < i {
        route(nodes, nodes[i].pid->0 as int).push(nodes[i].mvmnt->0)
    } else {
        Seq::empty()
    }
}

/// The lowest total estimate among the first `k` nodes at place `p`;
/// below zero when there is none.
spec fn low(nodes: Seq<Node>, p: (int, int, int), k: int) -> int
    decreases k,
{
    if k <= 0 {
        -1
    } else {
        let m = low(nodes, p, k - 1);
        let nd = nodes[k - 1];
        if nd.pos.coords() == p && (m < 0 || nd.tot() < m) {
            nd.tot()
        } else {
            m
        }
    }
}

/// One for a place of the box that no node has reached.
spec fn unseen_term(pf: &Playfield, fig: &Figure, nodes: Seq<Node>, i: int) -> int {
    if low(nodes, box_point(pf, fig, i), nodes.len() as int) < 0 {
        1
    } else {
        0
    }
}

/// The lowest total estimate at a reached place of the box.
spec fn low_term(pf: &Playfield, fig: &Figure, nodes: Seq<Node>, i: int) -> int {
    let m = low(nodes, box_point(pf, fig, i), nodes.len() as int);
    if m < 0 {
        0
    } else {
        m
    }
}

spec fn unseen(pf: &Playfield, fig: &Figure, nodes: Seq<Node>) -> int {
    total(|i: int| unseen_term(pf, fig, nodes, i), box_size(pf, fig))
}

spec fn lows(pf: &Playfield, fig: &Figure, nodes: Seq<Node>) -> int {
    total(|i: int| low_term(pf, fig, nodes, i), box_size(pf, fig))
}

proof fn lemma_low(nodes: Seq<Node>, p: (int, int, int), k: int)
    requires
        0 <= k <= nodes.len(),
    ensures
        low(nodes, p, k) >= -1,
        low(nodes, p, k) < 0 <==> forall|j: int| 0 <= j < k ==> nodes[j].pos.coords() != p,
        forall|j: int| 0 <= j < k && nodes[j].pos.coords() == p ==> low(nodes, p, k) <= nodes[j].tot(),
        low(nodes, p, k) >= 0 ==> exists|j: int|
            0 <= j < k && nodes[j].pos.coords() == p && nodes[j].tot() == low(nodes, p, k),
    decreases k,
{
    if k > 0 {
        lemma_low(nodes, p, k - 1);
        if low(nodes, p, k) >= 0 && low(nodes, p, k) != low(nodes, p, k - 1) {
            assert(nodes[k - 1].pos.coords() == p && nodes[k - 1].tot() == low(nodes, p, k));
        }
    }
}

proof fn lemma_low_prefix(nodes: Seq<Node>, x: Node, p: (int, int, int), k: int)
    requires
        0 <= k <= nodes.len(),
    ensures
        low(nodes.push(x), p, k) == low(nodes, p, k),
    decreases k,
{
    if k > 0 {
        lemma_low_prefix(nodes, x, p, k - 1);
        assert(nodes.push(x)[k - 1] == nodes[k - 1]);
    }
}


/// Node `i`: its id is its index; it is the start, or one move from a
/// parent that was opened; its times are in order and grow by at most
/// `mx` a move.
spec fn node_ok(fig: &Figure, start: PosDir, end: PosDir, mx: int, nodes: Seq<Node>, op: Seq<bool>, i: int) -> bool {
    let nd = nodes[i];
    &&& nd.id == i
    &&& nd.last_time_move <= nd.time
    &&& nd.last_time_down <= nd.time
    &&& nd.est_end == pos_est(nd.pos.coords(), end.coords())
    &&& nd.time <= nd.walked * mx
    &&& if i == 0 {
        &&& nd.pid is None
        &&& nd.pos == start
        &&& nd.walked == 0
    } else {
        &&& nd.pid is Some
        &&& 0 <= nd.pid->0 < i
        &&& op[nd.pid->0 as int]
        &&& nd.mvmnt is Some
        &&& nd.walked == nodes[nd.pid->0 as int].walked + 1
        &&& nodes[nd.pid->0 as int].time <= nd.time
        &&& stepped(nodes[nd.pid->0 as int].pos.coords(), nd.mvmnt->0, fig.num_faces()) == nd.pos.coords()
    }
}

/// An opened node other than the start stands at a free place with its
/// direction among the faces, and its chain of places repeats none.
spec fn opened_ok(pf: &Playfield, fig: &Figure, nodes: Seq<Node>, op: Seq<bool>, i: int) -> bool {
    op[i] ==> {
        &&& (i > 0 ==> free(pf, fig, nodes[i].pos.coords()) && -fig.num_faces() < nodes[i].pos.z
            < fig.num_faces())
        &&& chain(nodes, i).no_duplicates()
    }
}

/// Every node is in order, and the opened ones as well.
spec fn nodes_ok(
    pf: &Playfield,
    fig: &Figure,
    start: PosDir,
    end: PosDir,
    mx: int,
    nodes: Seq<Node>,
    op: Seq<bool>,
) -> bool {
    &&& nodes.len() >= 1
    &&& op.len() == nodes.len()
    &&& op[0]
    &&& forall|i: int| 0 <= i < nodes.len() ==> #[trigger] node_ok(fig, start, end, mx, nodes, op, i)
    &&& forall|i: int| 0 <= i < nodes.len() ==> #[trigger] opened_ok(pf, fig, nodes, op, i)
}

proof fn lemma_chain(fig: &Figure, start: PosDir, end: PosDir, mx: int, nodes: Seq<Node>, op: Seq<bool>, i: int)
    requires
        0 <= i < nodes.len(),
        op.len() == nodes.len(),
        forall|j: int| 0 <= j < nodes.len() ==> #[trigger] node_ok(fig, start, end, mx, nodes, op, j),
    ensures
        chain(nodes, i).len() == nodes[i].walked + 1,
        chain(nodes, i)[0] == start.coords(),
        forall|k: int|
            #![trigger chain(nodes, i)[k]]
            0 <= k < chain(nodes, i).len() ==> exists|j: int|
                #![trigger nodes[j]]
                0 <= j < nodes.len() && nodes[j].pos.coords() == chain(nodes, i)[k] && nodes[j].walked == k && (k
                    == nodes[i].walked ==> j == i) && (k < nodes[i].walked ==> op[j]) && (k >= 1 ==> j >= 1),
    decreases i,
{
    assert(node_ok(fig, start, end, mx, nodes, op, i));
    if i > 0 {
        let p = nodes[i].pid->0 as int;
        lemma_chain(fig, start, end, mx, nodes, op, p);
        assert(node_ok(fig, start, end, mx, nodes, op, p));
        let c = chain(nodes, i);
        let cp = chain(nodes, p);
        assert(c == cp.push(nodes[i].pos.coords()));
        assert forall|k: int| #![trigger c[k]] 0 <= k < c.len() implies exists|j: int|
            #![trigger nodes[j]]
            0 <= j < nodes.len() && nodes[j].pos.coords() == c[k] && nodes[j].walked == k && (k == nodes[i].walked
                ==> j == i) && (k < nodes[i].walked ==> op[j]) && (k >= 1 ==> j >= 1) by {
            if k < cp.len() {
                assert(c[k] == cp[k]);
                assert(cp[k] == chain(nodes, p)[k]);
                let j = choose|j: int|
                    #![trigger nodes[j]]
                    0 <= j < nodes.len() && nodes[j].pos.coords() == cp[k] && nodes[j].walked == k && (k
                        == nodes[p].walked ==> j == p) && (k < nodes[p].walked ==> op[j]) && (k >= 1 ==> j >= 1);
                assert(nodes[j].pos.coords() == c[k]);
                assert(k < nodes[i].walked);
                assert(op[j]);
                assert(0 <= j < nodes.len() && nodes[j].pos.coords() == c[k] && nodes[j].walked == k && (k
                    == nodes[i].walked ==> j == i) && (k < nodes[i].walked ==> op[j]) && (k >= 1 ==> j >= 1));
            } else {
                assert(nodes[i].pos.coords() == c[k]);
                assert(0 <= i < nodes.len() && nodes[i].pos.coords() == c[k] && nodes[i].walked == k && (k
                    == nodes[i].walked ==> i == i) && (k < nodes[i].walked ==> op[i]) && (k >= 1 ==> i >= 1));
            }
        }
    } else {
        let c = chain(nodes, 0);
        assert(c == seq![nodes[0].pos.coords()]);
        assert forall|k: int| #![trigger c[k]] 0 <= k < c.len() implies exists|j: int|
            #![trigger nodes[j]]
            0 <= j < nodes.len() && nodes[j].pos.coords() == c[k] && nodes[j].walked == k && (k == nodes[i].walked
                ==> j == i) && (k < nodes[i].walked ==> op[j]) && (k >= 1 ==> j >= 1) by {
            assert(k == 0);
            assert(nodes[0].pos.coords() == c[k]);
        }
    }
}

/// An opened node has walked at most as many moves as there are places
/// in the box: the places of its chain are distinct.
proof fn lemma_walked_bound(
    pf: &Playfield,
    fig: &Figure,
    start: PosDir,
    end: PosDir,
    mx: int,
    nodes: Seq<Node>,
    op: Seq<bool>,
    i: int,
)
    requires
        pf.wf(),
        fig.wf(),
        0 < fig.num_faces() <= i32::MAX,
        faces_have_blocks(fig),
        nodes_ok(pf, fig, start, end, mx, nodes, op),
        0 <= i < nodes.len(),
        op[i],
    ensures
        nodes[i].walked <= box_size(pf, fig),
{
    pf.lemma_wf();
    let nb = box_size(pf, fig);
    lemma_chain(fig, start, end, mx, nodes, op, i);
    assert(opened_ok(pf, fig, nodes, op, i));
    let c = chain(nodes, i);
    let f = |p: (int, int, int)|
        if in_box(pf, fig, p) {
            box_index(pf, fig, p)
        } else {
            nb
        };
    let m = c.map_values(f);
    assert forall|k: int| 1 <= k < c.len() implies #[trigger] in_box(pf, fig, c[k]) by {
        assert(c[k] == chain(nodes, i)[k]);
        let j = choose|j: int|
            #![trigger nodes[j]]
            0 <= j < nodes.len() && nodes[j].pos.coords() == c[k] && nodes[j].walked == k && (k == nodes[i].walked
                ==> j == i) && (k < nodes[i].walked ==> op[j]) && (k >= 1 ==> j >= 1);
        assert(op[j]);
        assert(opened_ok(pf, fig, nodes, op, j));
        lemma_free_in_box(pf, fig, nodes[j].pos.coords());
    }
    assert forall|a: int, b: int| 0 <= a < b < m.len() implies m[a] != m[b] by {
        assert(c[a] != c[b]);
        assert(in_box(pf, fig, c[b]));
        lemma_box(pf, fig, c[b]);
        if in_box(pf, fig, c[a]) {
            lemma_box(pf, fig, c[a]);
        }
    }
    assert(m.no_duplicates());
    m.unique_seq_to_set();
    assert forall|v: int| m.to_set().contains(v) implies vstd::set_lib::set_int_range(0, nb + 1).contains(v) by {
        let k = choose|k: int| 0 <= k < m.len() && m[k] == v;
        if in_box(pf, fig, c[k]) {
            lemma_box(pf, fig, c[k]);
        }
        lemma_extent(fig, fig.num_faces(), true);
        lemma_extent(fig, fig.num_faces(), false);
        assert(nb >= 0) by (nonlinear_arith)
            requires
                nb == box_w(pf, fig) * box_h(pf, fig) * box_d(fig),
                box_w(pf, fig) >= 0,
                box_h(pf, fig) >= 0,
                box_d(fig) >= 0,
        ;
    }
    lemma_extent(fig, fig.num_faces(), true);
    lemma_extent(fig, fig.num_faces(), false);
    assert(nb >= 0) by (nonlinear_arith)
        requires
            nb == box_w(pf, fig) * box_h(pf, fig) * box_d(fig),
            box_w(pf, fig) >= 0,
            box_h(pf, fig) >= 0,
            box_d(fig) >= 0,
    ;
    vstd::set_lib::lemma_int_range(0, nb + 1);
    vstd::set_lib::lemma_len_subset(m.to_set(), vstd::set_lib::set_int_range(0, nb + 1));
}


proof fn lemma_low_mono(nodes: Seq<Node>, p: (int, int, int), k1: int, k2: int)
    requires
        0 <= k1 <= k2 <= nodes.len(),
    ensures
        low(nodes, p, k1) >= 0 ==> 0 <= low(nodes, p, k2) <= low(nodes, p, k1),
        low(nodes, p, k2) < 0 ==> low(nodes, p, k1) < 0,
    decreases k2 - k1,
{
    if k1 < k2 {
        lemma_low_mono(nodes, p, k1, k2 - 1);
    }
}

proof fn lemma_low_same(a: Seq<Node>, b: Seq<Node>, p: (int, int, int), k: int)
    requires
        0 <= k <= a.len(),
        k <= b.len(),
        forall|j: int| 0 <= j < k ==> a[j] == b[j],
    ensures
        low(a, p, k) == low(b, p, k),
    decreases k,
{
    if k > 0 {
        lemma_low_same(a, b, p, k - 1);
    }
}

/// Nodes added to a list make no place of the box unreached, and lower
/// no estimate; when none of them reaches a place of the box not reached
/// before, the reached places stay the same.
proof fn lemma_terms(pf: &Playfield, fig: &Figure, n0: Seq<Node>, n1: Seq<Node>)
    requires
        pf.wf(),
        fig.wf(),
        0 < fig.num_faces(),
        n0.len() <= n1.len(),
        forall|j: int| 0 <= j < n0.len() ==> n0[j] == n1[j],
    ensures
        forall|i: int| #[trigger] unseen_term(pf, fig, n1, i) <= unseen_term(pf, fig, n0, i),
        (forall|j: int|
            n0.len() <= j < n1.len() ==> !(in_box(pf, fig, (#[trigger] n1[j]).pos.coords()) && low(
                n1,
                n1[j].pos.coords(),
                n0.len() as int,
            ) < 0)) ==> forall|i: int|
            #![trigger unseen_term(pf, fig, n1, i)]
            #![trigger low_term(pf, fig, n1, i)]
            0 <= i < box_size(pf, fig) ==> unseen_term(pf, fig, n1, i) == unseen_term(pf, fig, n0, i)
                && low_term(pf, fig, n1, i) <= low_term(pf, fig, n0, i),
{
    pf.lemma_wf();
    assert forall|i: int| #[trigger] unseen_term(pf, fig, n1, i) <= unseen_term(pf, fig, n0, i) by {
        let p = box_point(pf, fig, i);
        lemma_low_same(n0, n1, p, n0.len() as int);
        lemma_low_mono(n1, p, n0.len() as int, n1.len() as int);
    }
    if forall|j: int|
        n0.len() <= j < n1.len() ==> !(in_box(pf, fig, (#[trigger] n1[j]).pos.coords()) && low(
            n1,
            n1[j].pos.coords(),
            n0.len() as int,
        ) < 0) {
        assert forall|i: int|
            #![trigger unseen_term(pf, fig, n1, i)]
            #![trigger low_term(pf, fig, n1, i)]
            0 <= i < box_size(pf, fig) implies unseen_term(pf, fig, n1, i) == unseen_term(pf, fig, n0, i)
                && low_term(pf, fig, n1, i) <= low_term(pf, fig, n0, i) by {
            let p = box_point(pf, fig, i);
            lemma_low_same(n0, n1, p, n0.len() as int);
            lemma_low_mono(n1, p, n0.len() as int, n1.len() as int);
            if low(n1, p, n0.len() as int) < 0 && low(n1, p, n1.len() as int) >= 0 {
                lemma_low_reached(n1, p, n0.len() as int, n1.len() as int);
                let j = choose|j: int| n0.len() <= j < n1.len() && #[trigger] n1[j].pos.coords() == p;
                assert(in_box(pf, fig, p)) by {
                    lemma_box_point_in(pf, fig, i);
                }
                lemma_low_mono(n1, p, n0.len() as int, j);
                assert(!(in_box(pf, fig, n1[j].pos.coords()) && low(n1, n1[j].pos.coords(), n0.len() as int) < 0));
            }
        }
    }
}

/// A place unreached by the first `k1` nodes and reached by the first
/// `k2` is reached by a node in between.
proof fn lemma_low_reached(nodes: Seq<Node>, p: (int, int, int), k1: int, k2: int)
    requires
        0 <= k1 <= k2 <= nodes.len(),
        low(nodes, p, k1) < 0,
        low(nodes, p, k2) >= 0,
    ensures
        exists|j: int| k1 <= j < k2 && #[trigger] nodes[j].pos.coords() == p,
    decreases k2 - k1,
{
    if low(nodes, p, k2 - 1) >= 0 {
        lemma_low_reached(nodes, p, k1, k2 - 1);
    } else {
        assert(nodes[k2 - 1].pos.coords() == p);
    }
}

/// Every index of the box is the index of a place in the box.
proof fn lemma_box_point_in(pf: &Playfield, fig: &Figure, i: int)
    requires
        0 <= i < box_size(pf, fig),
        fig.wf(),
        0 < fig.num_faces(),
        pf.w() >= 0,
        pf.h() >= 0,
    ensures
        in_box(pf, fig, box_point(pf, fig, i)),
{
    lemma_extent(fig, fig.num_faces(), true);
    lemma_extent(fig, fig.num_faces(), false);
    let w = box_w(pf, fig);
    let h = box_h(pf, fig);
    let d = box_d(fig);
    assert(w > 0 && h > 0 && d > 0) by (nonlinear_arith)
        requires
            0 <= i < w * h * d,
            w >= 0,
            h >= 0,
            d >= 0,
    ;
    vstd::arithmetic::div_mod::lemma_fundamental_div_mod(i, w);
    vstd::arithmetic::div_mod::lemma_div_denominator(i, w, h);
    assert(0 <= i / w);
    assert((i / w) % h < h) by (nonlinear_arith)
        requires
            h > 0,
    ;
    assert(0 <= i / (w * h) < d) by (nonlinear_arith)
        requires
            0 <= i < w * h * d,
            w > 0,
            h > 0,
    ;
}


proof fn lemma_trail_push(
    pf: &Playfield,
    fig: &Figure,
    p0: (int, int, int),
    ms: Seq<Movement>,
    b: (int, int, int),
    m: Movement,
    c: (int, int, int),
)
    requires
        trail(pf, fig, p0, ms, b),
        ms.len() > 0 ==> free(pf, fig, b),
        stepped(b, m, fig.num_faces()) == c,
    ensures
        trail(pf, fig, p0, ms.push(m), c),
    decreases ms.len(),
{
    let ms2 = ms.push(m);
    if ms.len() == 0 {
        assert(ms2[0] == m);
    } else if ms.len() == 1 {
        assert(ms2[0] == ms[0]);
        assert(ms2.drop_first() =~= seq![m]);
        assert(trail(pf, fig, b, seq![m], c));
    } else {
        let q = stepped(p0, ms[0], fig.num_faces());
        lemma_trail_push(pf, fig, q, ms.drop_first(), b, m, c);
        assert(ms2.drop_first() =~= ms.drop_first().push(m));
        assert(ms2[0] == ms[0]);
    }
}

proof fn lemma_route_trail(
    pf: &Playfield,
    fig: &Figure,
    start: PosDir,
    end: PosDir,
    mx: int,
    nodes: Seq<Node>,
    op: Seq<bool>,
    i: int,
)
    requires
        nodes_ok(pf, fig, start, end, mx, nodes, op),
        0 <= i < nodes.len(),
    ensures
        route(nodes, i).len() == nodes[i].walked,
        trail(pf, fig, start.coords(), route(nodes, i), nodes[i].pos.coords()),
    decreases i,
{
    assert(node_ok(fig, start, end, mx, nodes, op, i));
    if i > 0 {
        let p = nodes[i].pid->0 as int;
        lemma_route_trail(pf, fig, start, end, mx, nodes, op, p);
        assert(node_ok(fig, start, end, mx, nodes, op, p));
        assert(opened_ok(pf, fig, nodes, op, p));
        lemma_trail_push(
            pf,
            fig,
            start.coords(),
            route(nodes, p),
            nodes[p].pos.coords(),
            nodes[i].mvmnt->0,
            nodes[i].pos.coords(),
        );
    }
}

/// The context of a search: the playfield, the figure, the place to
/// reach, the pace of moves and falls, every node made, and the open ones
/// with their total estimates.
struct NodeContext<'a> {
    pf: &'a Playfield,
    fig: &'a Figure,
    end_pos: PosDir,
    move_time: u64,
    down_time: u64,
    // Node by id contains all created nodes, indexed by id
    node_by_id: Vec<Node>,
    open_set: Vec<NodeIdAndEst>,
}

fn est_pos_distance(start: &PosDir, end: &PosDir) -> (r: u64)
    ensures
        r == pos_est(start.coords(), end.coords()),
{
    let dx = start.get_x() as i64 - end.get_x() as i64;
    let dz = start.get_dir() as i64 - end.get_dir() as i64;
    let ax: u64 = if dx < 0 {
        (-dx) as u64
    } else {
        dx as u64
    };
    let az: u64 = if dz < 0 {
        (-dz) as u64
    } else {
        dz as u64
    };
    ax + az
}

impl<'a> NodeContext<'a> {
    fn new(move_time: u64, down_time: u64, pf: &'a Playfield, fig: &'a Figure, end_pos: &PosDir) -> (r: Self)
        ensures
            r.pf == pf,
            r.fig == fig,
            r.end_pos == *end_pos,
            r.move_time == move_time,
            r.down_time == down_time,
            r.node_by_id@ == Seq::<Node>::empty(),
            r.open_set@ == Seq::<NodeIdAndEst>::empty(),
    {
        NodeContext {
            pf: pf,
            fig: fig,
            end_pos: *end_pos,
            move_time: move_time,
            down_time: down_time,
            node_by_id: Vec::new(),
            open_set: Vec::new(),
        }
    }

    fn get_node_from_id(&self, id: usize) -> (r: &Node)
        requires
            id < self.node_by_id@.len(),
        ensures
            *r == self.node_by_id@[id as int],
    {
        return &self.node_by_id[id];
    }

    /// Takes out an open node with the lowest total estimate.
    fn pop_best_open(&mut self) -> (r: Node)
        requires
            old(self).open_set@.len() > 0,
            forall|j: int|
                0 <= j < old(self).open_set@.len() ==> (#[trigger] old(self).open_set@[j]).id
                    < old(self).node_by_id@.len(),
        ensures
            final(self).pf == old(self).pf,
            final(self).fig == old(self).fig,
            final(self).end_pos == old(self).end_pos,
            final(self).move_time == old(self).move_time,
            final(self).down_time == old(self).down_time,
            final(self).node_by_id@ == old(self).node_by_id@,
            exists|k: int|
                0 <= k < old(self).open_set@.len() && final(self).open_set@ == old(self).open_set@.remove(k) && r
                    == old(self).node_by_id@[old(self).open_set@[k].id as int],
            ({
                let b = best_upto(old(self).open_set@, old(self).open_set@.len() as int);
                &&& 0 <= b < old(self).open_set@.len()
                &&& final(self).open_set@ == old(self).open_set@.remove(b)
                &&& r == old(self).node_by_id@[old(self).open_set@[b].id as int]
            }),
    {
        let mut best: usize = 0;
        let mut i: usize = 1;
        while i < self.open_set.len()
            invariant
                self.open_set@.len() > 0,
                1 <= i <= self.open_set@.len(),
                0 <= best < self.open_set@.len(),
                best == best_upto(self.open_set@, i as int),
            decreases self.open_set@.len() - i,
        {
            if self.open_set[i].est < self.open_set[best].est {
                best = i;
            }
            i = i + 1;
        }
        let best_node = self.open_set.remove(best);
        return *self.get_node_from_id(best_node.id);
    }

    fn add_node(&mut self, node: Node)
        ensures
            final(self).pf == old(self).pf,
            final(self).fig == old(self).fig,
            final(self).end_pos == old(self).end_pos,
            final(self).move_time == old(self).move_time,
            final(self).down_time == old(self).down_time,
            final(self).open_set@ == old(self).open_set@,
            final(self).node_by_id@ == old(self).node_by_id@.push(node),
    {
        self.node_by_id.push(node);
    }

    fn mark_open(&mut self, node: &Node)
        requires
            node.tot() <= u64::MAX,
        ensures
            final(self).pf == old(self).pf,
            final(self).fig == old(self).fig,
            final(self).end_pos == old(self).end_pos,
            final(self).move_time == old(self).move_time,
            final(self).down_time == old(self).down_time,
            final(self).node_by_id@ == old(self).node_by_id@,
            final(self).open_set@ == old(self).open_set@.push(NodeIdAndEst { id: node.id, est: node.tot() as u64 }),
    {
        let id_and_est = NodeIdAndEst { id: node.id, est: node.get_tot_est() };
        self.open_set.push(id_and_est);
    }

    fn mark_closed(&mut self, _node: &Node)
        ensures
            *final(self) == *old(self),
    {
    }

    /// Whether no other node at the node's place has a total estimate as
    /// low as its own.
    fn no_pos_with_lower_est(&self, node: &Node) -> (r: bool)
        requires
            node.tot() <= u64::MAX,
            forall|j: int| 0 <= j < self.node_by_id@.len() ==> (#[trigger] self.node_by_id@[j]).tot() <= u64::MAX,
        ensures
            r == forall|j: int|
                0 <= j < self.node_by_id@.len() && (#[trigger] self.node_by_id@[j]).id != node.id
                    && self.node_by_id@[j].pos == node.pos ==> self.node_by_id@[j].tot() > node.tot(),
    {
        let mut i: usize = 0;
        while i < self.node_by_id.len()
            invariant
                node.tot() <= u64::MAX,
                forall|j: int| 0 <= j < self.node_by_id@.len() ==> (#[trigger] self.node_by_id@[j]).tot() <= u64::MAX,
                0 <= i <= self.node_by_id@.len(),
                forall|j: int|
                    0 <= j < i && (#[trigger] self.node_by_id@[j]).id != node.id && self.node_by_id@[j].pos
                        == node.pos ==> self.node_by_id@[j].tot() > node.tot(),
            decreases self.node_by_id@.len() - i,
        {
            let n = self.get_node_from_id(i);
            if n.id != node.id && n.pos == node.pos && n.get_tot_est() <= node.get_tot_est() {
                return false;
            }
            i = i + 1;
        }
        return true;
    }
}

impl Node {
    fn get_tot_est(&self) -> (r: u64)
        requires
            self.tot() <= u64::MAX,
        ensures
            r == self.tot(),
    {
        self.walked + self.est_end
    }
}


/// The larger of the two paces.
pub open spec fn pace(move_time: u64, down_time: u64) -> int {
    if move_time > down_time {
        move_time as int
    } else {
        down_time as int
    }
}

/// What a search needs: a well-formed playfield and figure whose faces
/// each have a block and stay inside `i32` one step beyond the playfield,
/// a start one move away from the edges of `i32`, and paces small enough
/// that no time of a path through the box overflows.
pub open spec fn search_ok(pf: &Playfield, fig: &Figure, start: PosDir, move_time: u64, down_time: u64) -> bool {
    &&& pf.wf()
    &&& fig.wf()
    &&& 0 < fig.num_faces() <= i32::MAX
    &&& faces_have_blocks(fig)
    &&& fig.fits_at(pf.w() + 1, pf.h() + 1)
    &&& i32::MIN < start.x < i32::MAX
    &&& start.y < i32::MAX
    &&& i32::MIN < start.z < i32::MAX
    &&& fig.fits_at(start.x + 1, start.y + 1)
    &&& (box_size(pf, fig) + 2) * (pace(move_time, down_time) + 1) <= 0x4000_0000_0000_0000
}

/// The end lies one move from the start among the moves tried first: a
/// move down, or, when a regular move is due before the first fall, a
/// step sideways or a turn.
pub open spec fn one_move_away(fig: &Figure, start: PosDir, end: PosDir, move_time: u64, down_time: u64) -> bool {
    let nf = fig.num_faces();
    ||| stepped(start.coords(), Movement::MoveDown, nf) == end.coords()
    ||| move_time < down_time && exists|m: Movement|
        m != Movement::MoveDown && m != Movement::MoveUp && #[trigger] stepped(start.coords(), m, nf)
            == end.coords()
}

/// Node `i` keeps the pace from its parent: its times follow from the
/// parent's by its move, and a move other than a fall was made only when
/// a regular move was due before the next fall.
spec fn node_paced(nodes: Seq<Node>, i: int, move_time: u64, down_time: u64) -> bool {
    let nd = nodes[i];
    if i == 0 {
        nd.time == 0 && nd.last_time_move == 0 && nd.last_time_down == 0
    } else {
        let q = nodes[nd.pid->0 as int];
        if nd.mvmnt->0 == Movement::MoveDown {
            &&& nd.time == q.time + waited(down_time - (q.time - q.last_time_down))
            &&& nd.last_time_down == nd.time
            &&& nd.last_time_move == q.last_time_move
        } else {
            &&& move_time - (q.time - q.last_time_move) < down_time - (q.time - q.last_time_down)
            &&& nd.time == q.time + waited(move_time - (q.time - q.last_time_move))
            &&& nd.last_time_move == nd.time
            &&& nd.last_time_down == q.last_time_down
        }
    }
}

proof fn lemma_node_path_paced(
    fig: &Figure,
    start: PosDir,
    end: PosDir,
    mx: int,
    nodes: Seq<Node>,
    op: Seq<bool>,
    i: int,
    move_time: u64,
    down_time: u64,
)
    requires
        0 <= i < nodes.len(),
        forall|k: int| 0 <= k < nodes.len() ==> #[trigger] node_ok(fig, start, end, mx, nodes, op, k),
        forall|k: int| 0 <= k < nodes.len() ==> #[trigger] node_paced(nodes, k, move_time, down_time),
    ensures
        paced(node_path(nodes, i), move_time, down_time),
        pace_clock(node_path(nodes, i), move_time, down_time) == (
            nodes[i].time as int,
            nodes[i].last_time_move as int,
            nodes[i].last_time_down as int,
        ),
    decreases i,
{
    assert(node_ok(fig, start, end, mx, nodes, op, i) && node_paced(nodes, i, move_time, down_time));
    if i > 0 {
        let p = nodes[i].pid->0 as int;
        lemma_node_path_paced(fig, start, end, mx, nodes, op, p, move_time, down_time);
        let r = node_path(nodes, i);
        assert(r == seq![(nodes[i].mvmnt->0, nodes[i].time)] + node_path(nodes, p));
        assert(r.drop_first() =~= node_path(nodes, p));
    }
}

spec fn ctx_ok(
    ctx: &NodeContext,
    pf: &Playfield,
    fig: &Figure,
    start: PosDir,
    end: PosDir,
    move_time: u64,
    down_time: u64,
    op: Seq<bool>,
) -> bool {
    let nodes = ctx.node_by_id@;
    &&& ctx.pf == pf
    &&& ctx.fig == fig
    &&& ctx.end_pos == end
    &&& ctx.move_time == move_time
    &&& ctx.down_time == down_time
    &&& nodes_ok(pf, fig, start, end, pace(move_time, down_time), nodes, op)
    &&& forall|i: int| 0 <= i < nodes.len() ==> #[trigger] node_paced(nodes, i, move_time, down_time)
    &&& forall|i: int| 0 <= i < nodes.len() ==> (#[trigger] nodes[i]).walked <= box_size(pf, fig) + 1
    &&& forall|j: int|
        0 <= j < ctx.open_set@.len() ==> (#[trigger] ctx.open_set@[j]).id < nodes.len() && op[ctx.open_set@[j].id as int]
            && ctx.open_set@[j].est == nodes[ctx.open_set@[j].id as int].tot()
}

proof fn lemma_sizes(pf: &Playfield, fig: &Figure, start: PosDir, move_time: u64, down_time: u64)
    requires
        search_ok(pf, fig, start, move_time, down_time),
    ensures
        0 <= box_size(pf, fig) <= 0x4000_0000_0000_0000,
        0 <= pace(move_time, down_time) <= 0x4000_0000_0000_0000,
        move_time <= 0x4000_0000_0000_0000,
        down_time <= 0x4000_0000_0000_0000,
{
    pf.lemma_wf();
    lemma_extent(fig, fig.num_faces(), true);
    lemma_extent(fig, fig.num_faces(), false);
    let nb = box_size(pf, fig);
    let mx = pace(move_time, down_time);
    assert(nb >= 0) by (nonlinear_arith)
        requires
            nb == box_w(pf, fig) * box_h(pf, fig) * box_d(fig),
            box_w(pf, fig) >= 0,
            box_h(pf, fig) >= 0,
            box_d(fig) >= 0,
    ;
    assert(nb <= 0x4000_0000_0000_0000 && mx <= 0x4000_0000_0000_0000) by (nonlinear_arith)
        requires
            nb >= 0,
            mx >= 0,
            (nb + 2) * (mx + 1) <= 0x4000_0000_0000_0000,
    ;
}

/// The time of a path of at most one move more than the box has places
/// fits.
proof fn lemma_time_bound(pf: &Playfield, fig: &Figure, start: PosDir, move_time: u64, down_time: u64, w: int)
    requires
        search_ok(pf, fig, start, move_time, down_time),
        0 <= w <= box_size(pf, fig) + 1,
    ensures
        w * pace(move_time, down_time) <= 0x4000_0000_0000_0000,
        (w + 1) * pace(move_time, down_time) <= 0x4000_0000_0000_0000 + pace(move_time, down_time),
{
    let nb = box_size(pf, fig);
    let mx = pace(move_time, down_time);
    assert(w * mx <= (nb + 2) * (mx + 1)) by (nonlinear_arith)
        requires
            0 <= w <= nb + 1,
            mx >= 0,
    ;
    assert((w + 1) * mx == w * mx + mx) by (nonlinear_arith);
}

impl Node {
    fn new(
        ctx: &mut NodeContext,
        parent: Option<usize>,
        pos: &PosDir,
        walked: u64,
        est_distance_end: u64,
        mvmnt: Option<Movement>,
        time: u64,
        last_time_move: u64,
        last_time_down: u64,
    ) -> (r: Node)
        ensures
            r.id == old(ctx).node_by_id@.len(),
            r == (Node {
                id: r.id,
                pid: parent,
                pos: *pos,
                walked: walked,
                est_end: est_distance_end,
                mvmnt: mvmnt,
                time: time,
                last_time_move: last_time_move,
                last_time_down: last_time_down,
            }),
            final(ctx).pf == old(ctx).pf,
            final(ctx).fig == old(ctx).fig,
            final(ctx).end_pos == old(ctx).end_pos,
            final(ctx).move_time == old(ctx).move_time,
            final(ctx).down_time == old(ctx).down_time,
            final(ctx).open_set@ == old(ctx).open_set@,
            final(ctx).node_by_id@ == old(ctx).node_by_id@.push(r),
    {
        let node = Node {
            id: ctx.node_by_id.len(),
            pid: parent,
            pos: *pos,
            walked: walked,
            est_end: est_distance_end,
            mvmnt: mvmnt,
            time: time,
            last_time_move: last_time_move,
            last_time_down: last_time_down,
        };
        ctx.add_node(node);
        return node;
    }

    fn time_until_move(&self, ctx: &NodeContext) -> (r: i64)
        requires
            self.last_time_move <= self.time <= 0x4000_0000_0000_0000,
            ctx.move_time <= 0x4000_0000_0000_0000,
        ensures
            r == ctx.move_time - (self.time - self.last_time_move),
    {
        let time_since_move = (self.time - self.last_time_move) as i64;
        return ctx.move_time as i64 - time_since_move;
    }

    fn time_until_down(&self, ctx: &NodeContext) -> (r: i64)
        requires
            self.last_time_down <= self.time <= 0x4000_0000_0000_0000,
            ctx.down_time <= 0x4000_0000_0000_0000,
        ensures
            r == ctx.down_time - (self.time - self.last_time_down),
    {
        let time_since_down = (self.time - self.last_time_down) as i64;
        return ctx.down_time as i64 - time_since_down;
    }
}


proof fn lemma_chain_push(nodes: Seq<Node>, x: Node, i: int)
    requires
        0 <= i < nodes.len(),
    ensures
        chain(nodes.push(x), i) == chain(nodes, i),
        route(nodes.push(x), i) == route(nodes, i),
    decreases i,
{
    let n2 = nodes.push(x);
    assert(n2[i] == nodes[i]);
    assert(n2[0] == nodes[0]);
    if i > 0 && nodes[i].pid is Some && 0 <= nodes[i].pid->0 < i {
        lemma_chain_push(nodes, x, nodes[i].pid->0 as int);
    }
}

/// Adding a node in order keeps the list in order.
proof fn lemma_nodes_push(
    pf: &Playfield,
    fig: &Figure,
    start: PosDir,
    end: PosDir,
    mx: int,
    nodes: Seq<Node>,
    op: Seq<bool>,
    x: Node,
)
    requires
        nodes_ok(pf, fig, start, end, mx, nodes, op),
        node_ok(fig, start, end, mx, nodes.push(x), op.push(false), nodes.len() as int),
    ensures
        nodes_ok(pf, fig, start, end, mx, nodes.push(x), op.push(false)),
{
    let n2 = nodes.push(x);
    let o2 = op.push(false);
    assert forall|i: int| 0 <= i < n2.len() implies #[trigger] node_ok(fig, start, end, mx, n2, o2, i) by {
        if i < nodes.len() {
            assert(node_ok(fig, start, end, mx, nodes, op, i));
            assert(n2[i] == nodes[i]);
            if i > 0 {
                assert(n2[nodes[i].pid->0 as int] == nodes[nodes[i].pid->0 as int]);
            }
        }
    }
    assert forall|i: int| 0 <= i < n2.len() implies #[trigger] opened_ok(pf, fig, n2, o2, i) by {
        if i < nodes.len() {
            assert(opened_ok(pf, fig, nodes, op, i));
            assert(n2[i] == nodes[i]);
            lemma_chain_push(nodes, x, i);
        }
    }
}

impl Node {
    /// The node one move from this one, added to the search.
    fn new_moved_node(
        &self,
        ctx: &mut NodeContext,
        movement: Movement,
        Ghost(pf): Ghost<&Playfield>,
        Ghost(fig): Ghost<&Figure>,
        Ghost(start): Ghost<PosDir>,
        Ghost(end): Ghost<PosDir>,
        Ghost(op): Ghost<Seq<bool>>,
    ) -> (r: Node)
        requires
            search_ok(pf, fig, start, old(ctx).move_time, old(ctx).down_time),
            ctx_ok(old(ctx), pf, fig, start, end, old(ctx).move_time, old(ctx).down_time, op),
            0 <= self.id < old(ctx).node_by_id@.len(),
            old(ctx).node_by_id@[self.id as int] == *self,
            op[self.id as int],
            self.walked <= box_size(pf, fig),
            self.pos.can_move(movement),
            movement != Movement::MoveDown ==> old(ctx).move_time - (self.time - self.last_time_move) < old(
                ctx,
            ).down_time - (self.time - self.last_time_down),
        ensures
            ctx_ok(final(ctx), pf, fig, start, end, old(ctx).move_time, old(ctx).down_time, op.push(false)),
            final(ctx).node_by_id@ == old(ctx).node_by_id@.push(r),
            final(ctx).open_set@ == old(ctx).open_set@,
            r.id == old(ctx).node_by_id@.len(),
            r.pid == Some(self.id),
            r.mvmnt == Some(movement),
            r.walked == self.walked + 1,
            r.pos.coords() == stepped(self.pos.coords(), movement, fig.num_faces()),
            -fig.num_faces() < r.pos.z < fig.num_faces(),
            r == moved_node(
                *self,
                movement,
                old(ctx).node_by_id@.len() as int,
                fig.num_faces(),
                end,
                old(ctx).move_time,
                old(ctx).down_time,
            ),
    {
        let ghost nodes = ctx.node_by_id@;
        let ghost mx = pace(ctx.move_time, ctx.down_time);
        proof {
            lemma_sizes(pf, fig, start, ctx.move_time, ctx.down_time);
            lemma_time_bound(pf, fig, start, ctx.move_time, ctx.down_time, self.walked as int);
            assert(node_ok(fig, start, end, mx, nodes, op, self.id as int));
        }
        let mut fig_pos = self.pos.apply_move(&movement);
        fig_pos.normalize_dir(ctx.fig.faces().len());
        proof {
            lemma_norm_dir_bounds(self.pos.z + move_delta(movement).2, fig.num_faces());
        }
        let mut ltd = self.last_time_down;
        let mut ltm = self.last_time_move;
        let mut tt = self.time;
        if movement == Movement::MoveDown {
            let until = self.time_until_down(ctx);
            let wait: u64 = if until > 0 {
                until as u64
            } else {
                0
            };
            tt = tt + wait;
            ltd = tt;
        } else {
            let until = self.time_until_move(ctx);
            let wait: u64 = if until > 0 {
                until as u64
            } else {
                0
            };
            tt = tt + wait;
            ltm = tt;
        }
        let distance_to_end = est_pos_distance(&fig_pos, &ctx.end_pos);
        proof {
            assert(self.walked * mx + mx == (self.walked + 1) * mx) by (nonlinear_arith);
        }
        let r = Node::new(
            ctx,
            Some(self.id),
            &fig_pos,
            self.walked + 1,
            distance_to_end,
            Some(movement),
            tt,
            ltm,
            ltd,
        );
        proof {
            let n2 = nodes.push(r);
            let o2 = op.push(false);
            assert(n2[self.id as int] == *self);
            assert(node_ok(fig, start, end, mx, n2, o2, nodes.len() as int));
            lemma_nodes_push(pf, fig, start, end, mx, nodes, op, r);
            assert forall|i: int| 0 <= i < n2.len() implies #[trigger] node_paced(n2, i, ctx.move_time, ctx.down_time) by {
                if i < nodes.len() {
                    assert(node_paced(nodes, i, ctx.move_time, ctx.down_time));
                    assert(node_ok(fig, start, end, mx, nodes, op, i));
                    assert(n2[i] == nodes[i]);
                    if i > 0 {
                        assert(n2[n2[i].pid->0 as int] == nodes[nodes[i].pid->0 as int]);
                    }
                } else {
                    assert(n2[i] == r);
                }
            }
        }
        r
    }
}


/// `k` unopened marks.
spec fn unopened(k: int) -> Seq<bool> {
    Seq::new(k as nat, |j: int| false)
}

impl Node {
    /// The nodes one move from this one: left, right, the turns and down
    /// when a regular move is due before the next fall, else only down.
    fn get_possible_moves(
        &self,
        ctx: &mut NodeContext,
        Ghost(pf): Ghost<&Playfield>,
        Ghost(fig): Ghost<&Figure>,
        Ghost(start): Ghost<PosDir>,
        Ghost(end): Ghost<PosDir>,
        Ghost(op): Ghost<Seq<bool>>,
    ) -> (r: Vec<Node>)
        requires
            search_ok(pf, fig, start, old(ctx).move_time, old(ctx).down_time),
            ctx_ok(old(ctx), pf, fig, start, end, old(ctx).move_time, old(ctx).down_time, op),
            0 <= self.id < old(ctx).node_by_id@.len(),
            old(ctx).node_by_id@[self.id as int] == *self,
            op[self.id as int],
            self.walked <= box_size(pf, fig),
            forall|m: Movement| m != Movement::MoveUp ==> #[trigger] self.pos.can_move(m),
        ensures
            ctx_ok(
                final(ctx),
                pf,
                fig,
                start,
                end,
                old(ctx).move_time,
                old(ctx).down_time,
                op + unopened(r@.len() as int),
            ),
            final(ctx).node_by_id@ == old(ctx).node_by_id@ + r@,
            final(ctx).open_set@ == old(ctx).open_set@,
            r@.len() <= 5,
            forall|j: int|
                0 <= j < r@.len() ==> (#[trigger] r@[j]).id == old(ctx).node_by_id@.len() + j && r@[j].pid
                    == Some(self.id) && r@[j].mvmnt is Some && r@[j].pos.coords() == stepped(
                    self.pos.coords(),
                    r@[j].mvmnt->0,
                    fig.num_faces(),
                ) && -fig.num_faces() < r@[j].pos.z < fig.num_faces() && r@[j].walked == self.walked + 1,
            r@ == expanded(
                *self,
                moves_from(*self, old(ctx).move_time, old(ctx).down_time),
                old(ctx).node_by_id@.len() as int,
                fig.num_faces(),
                end,
                old(ctx).move_time,
                old(ctx).down_time,
            ),
            ({
                let regular = old(ctx).move_time - (self.time - self.last_time_move) < old(ctx).down_time - (
                self.time - self.last_time_down);
                if regular {
                    r@.map_values(|n: Node| n.mvmnt) == seq![
                        Some(Movement::MoveLeft),
                        Some(Movement::MoveRight),
                        Some(Movement::RotateCW),
                        Some(Movement::RotateCCW),
                        Some(Movement::MoveDown),
                    ]
                } else {
                    r@.map_values(|n: Node| n.mvmnt) == seq![Some(Movement::MoveDown)]
                }
            }),
    {
        proof {
            lemma_sizes(pf, fig, start, ctx.move_time, ctx.down_time);
            lemma_time_bound(pf, fig, start, ctx.move_time, ctx.down_time, self.walked as int);
            assert(node_ok(fig, start, end, pace(ctx.move_time, ctx.down_time), ctx.node_by_id@, op, self.id as int));
        }
        let ghost regular = ctx.move_time - (self.time - self.last_time_move) < ctx.down_time - (self.time
            - self.last_time_down);
        let movements: Vec<Movement> = if self.time_until_move(ctx) < self.time_until_down(ctx) {
            // Regular move
            vec![
                Movement::MoveLeft,
                Movement::MoveRight,
                Movement::RotateCW,
                Movement::RotateCCW,
                Movement::MoveDown,
            ]
        } else {
            // Forced down move
            vec![Movement::MoveDown]
        };
        let ghost n0 = ctx.node_by_id@;
        let ghost wanted = if regular {
            seq![
                Some(Movement::MoveLeft),
                Some(Movement::MoveRight),
                Some(Movement::RotateCW),
                Some(Movement::RotateCCW),
                Some(Movement::MoveDown),
            ]
        } else {
            seq![Some(Movement::MoveDown)]
        };
        assert(movements@.map_values(|m: Movement| Some(m)) =~= wanted);
        let mut r: Vec<Node> = Vec::new();
        let mut k: usize = 0;
        while k < movements.len()
            invariant
                movements@.map_values(|m: Movement| Some(m)) == wanted,
                forall|j: int| 0 <= j < k ==> (#[trigger] r@[j]).mvmnt == Some(movements@[j]),
                movements@ == moves_from(*self, ctx.move_time, ctx.down_time),
                ctx.end_pos == end,
                forall|j: int|
                    0 <= j < k ==> #[trigger] r@[j] == moved_node(
                        *self,
                        movements@[j],
                        n0.len() + j,
                        fig.num_faces(),
                        end,
                        ctx.move_time,
                        ctx.down_time,
                    ),
                search_ok(pf, fig, start, ctx.move_time, ctx.down_time),
                ctx.move_time == old(ctx).move_time,
                ctx.down_time == old(ctx).down_time,
                ctx_ok(ctx, pf, fig, start, end, ctx.move_time, ctx.down_time, op + unopened(r@.len() as int)),
                ctx.node_by_id@ == n0 + r@,
                n0 == old(ctx).node_by_id@,
                ctx.open_set@ == old(ctx).open_set@,
                movements@.len() <= 5,
                forall|i: int| 0 <= i < movements@.len() ==> (#[trigger] movements@[i]) != Movement::MoveUp,
                0 <= k <= movements@.len(),
                r@.len() == k,
                0 <= self.id < n0.len(),
                n0[self.id as int] == *self,
                op[self.id as int],
                self.walked <= box_size(pf, fig),
                forall|m: Movement| m != Movement::MoveUp ==> #[trigger] self.pos.can_move(m),
                forall|j: int|
                    0 <= j < r@.len() ==> (#[trigger] r@[j]).id == n0.len() + j && r@[j].pid == Some(self.id)
                        && r@[j].mvmnt is Some && r@[j].pos.coords() == stepped(
                        self.pos.coords(),
                        r@[j].mvmnt->0,
                        fig.num_faces(),
                    ) && -fig.num_faces() < r@[j].pos.z < fig.num_faces() && r@[j].walked == self.walked + 1,
            decreases movements@.len() - k,
        {
            let ghost ops = op + unopened(r@.len() as int);
            proof {
                assert((n0 + r@)[self.id as int] == *self);
                assert(ops[self.id as int]);
                assert(self.pos.can_move(movements@[k as int]));
            }
            let node = self.new_moved_node(ctx, movements[k], Ghost(pf), Ghost(fig), Ghost(start), Ghost(end), Ghost(ops));
            let ghost r0 = r@;
            r.push(node);
            proof {
                assert(n0 + r@ =~= (n0 + r0).push(node));
                assert(op + unopened(r@.len() as int) =~= ops.push(false));
            }
            k = k + 1;
        }
        proof {
            assert forall|j: int| 0 <= j < r@.len() implies r@.map_values(|n: Node| n.mvmnt)[j] == wanted[j] by {
                assert(movements@.map_values(|m: Movement| Some(m))[j] == Some(movements@[j]));
            }
            assert(r@.map_values(|n: Node| n.mvmnt) =~= wanted);
            assert(r@ =~= expanded(
                *self,
                moves_from(*self, ctx.move_time, ctx.down_time),
                n0.len() as int,
                fig.num_faces(),
                end,
                ctx.move_time,
                ctx.down_time,
            ));
        }
        r
    }

    /// The moves and times from the first node to this one, last move
    /// first.
    fn get_path(
        &self,
        ctx: &NodeContext,
        Ghost(pf): Ghost<&Playfield>,
        Ghost(fig): Ghost<&Figure>,
        Ghost(start): Ghost<PosDir>,
        Ghost(end): Ghost<PosDir>,
        Ghost(op): Ghost<Seq<bool>>,
    ) -> (path: Vec<(Movement, u64)>)
        requires
            ctx_ok(ctx, pf, fig, start, end, ctx.move_time, ctx.down_time, op),
            0 <= self.id < ctx.node_by_id@.len(),
            ctx.node_by_id@[self.id as int] == *self,
        ensures
            path_moves(path@) == route(ctx.node_by_id@, self.id as int),
            forall|j: int| 0 <= j < path@.len() - 1 ==> (#[trigger] path@[j]).1 >= path@[j + 1].1,
            self.id != 0 ==> path@.len() > 0,
            path@ == node_path(ctx.node_by_id@, self.id as int),
    {
        let ghost nodes = ctx.node_by_id@;
        let ghost mx = pace(ctx.move_time, ctx.down_time);
        let ghost last = self.id as int;
        let mut p: usize = self.id;
        let mut path: Vec<(Movement, u64)> = Vec::new();
        while ctx.node_by_id[p].id != 0
            invariant
                ctx_ok(ctx, pf, fig, start, end, ctx.move_time, ctx.down_time, op),
                nodes == ctx.node_by_id@,
                mx == pace(ctx.move_time, ctx.down_time),
                0 <= last < nodes.len(),
                p < nodes.len(),
                route(nodes, last) == route(nodes, p as int) + path_moves(path@),
                forall|j: int| 0 <= j < path@.len() - 1 ==> (#[trigger] path@[j]).1 >= path@[j + 1].1,
                path@.len() > 0 ==> path@[path@.len() - 1].1 >= nodes[p as int].time,
                p == last || path@.len() > 0,
                nodes[last] == *self,
                node_path(nodes, last) == path@ + node_path(nodes, p as int),
            decreases p,
        {
            assert(node_ok(fig, start, end, mx, nodes, op, p as int));
            let nd = ctx.node_by_id[p];
            let m = nd.mvmnt.unwrap();
            let ghost old_path = path@;
            let parent = nd.pid.unwrap();
            assert(node_ok(fig, start, end, mx, nodes, op, parent as int));
            path.push((m, nd.time));
            proof {
                assert(path_moves(path@) =~= seq![m] + path_moves(old_path));
                assert(route(nodes, p as int) == route(nodes, parent as int).push(m));
                assert(route(nodes, parent as int).push(m) + path_moves(old_path) =~= route(nodes, parent as int) + (
                seq![m] + path_moves(old_path)));
                assert(node_path(nodes, p as int) == seq![(m, nd.time)] + node_path(nodes, parent as int));
                assert(path@ =~= old_path + seq![(m, nd.time)]);
                assert(old_path + (seq![(m, nd.time)] + node_path(nodes, parent as int)) =~= path@ + node_path(
                    nodes,
                    parent as int,
                ));
            }
            p = parent;
        }
        proof {
            assert(node_ok(fig, start, end, mx, nodes, op, p as int));
            assert(route(nodes, p as int) =~= Seq::<Movement>::empty());
            assert(route(nodes, last) =~= path_moves(path@));
            assert(node_path(nodes, p as int) =~= Seq::<(Movement, u64)>::empty());
            assert(path@ + node_path(nodes, p as int) =~= path@);
        }
        path
    }
}


/// Searches a path for the figure from `start_pos` to `end_pos`, moving at
/// the pace of `move_time` and falling every `force_down_time`. The path
/// lists its moves with their times, last move first; it is empty when the
/// search ran out of places to try.
#[verifier::spinoff_prover]
#[verifier::rlimit(60)]
pub fn find_path(
    pf: &Playfield,
    fig: &Figure,
    start_pos: &PosDir,
    end_pos: &PosDir,
    move_time: u64,
    force_down_time: u64,
) -> (r: Vec<(Movement, u64)>)
    requires
        search_ok(pf, fig, *start_pos, move_time, force_down_time),
    ensures
        r@.len() > 0 ==> trail(pf, fig, start_pos.coords(), path_moves(r@), end_pos.coords()),
        forall|j: int| 0 <= j < r@.len() - 1 ==> (#[trigger] r@[j]).1 >= r@[j + 1].1,
        one_move_away(fig, *start_pos, *end_pos, move_time, force_down_time) ==> r@.len() > 0,
        r@ == search_path(pf, fig, *start_pos, *end_pos, move_time, force_down_time),
        paced(r@, move_time, force_down_time),
{
    let ghost start = *start_pos;
    let ghost end = *end_pos;
    let ghost mx = pace(move_time, force_down_time);
    proof {
        lemma_sizes(pf, fig, start, move_time, force_down_time);
        pf.lemma_wf();
    }
    let mut ctx = NodeContext::new(move_time, force_down_time, pf, fig, end_pos);
    let start_node = Node::new(
        &mut ctx,
        None,
        start_pos,
        0,
        est_pos_distance(start_pos, end_pos),
        None,
        0,
        0,
        0,
    );
    proof {
        assert(pos_est(start.coords(), end.coords()) <= 0x2_0000_0000);
    }
    ctx.mark_open(&start_node);
    let ghost mut op: Seq<bool> = seq![true];
    proof {
        let nodes = ctx.node_by_id@;
        assert(node_ok(fig, start, end, mx, nodes, op, 0));
        assert(chain(nodes, 0) == seq![start.coords()]);
        assert(opened_ok(pf, fig, nodes, op, 0));
        assert(nodes_ok(pf, fig, start, end, mx, nodes, op));
        assert(node_paced(nodes, 0, move_time, force_down_time));
    }
    let ghost mut first = true;
    let ghost mut rounds: nat = 0;
    proof {
        assert(ctx.node_by_id@ =~= search_start(start, end).nodes);
        assert(ctx.open_set@ =~= search_start(start, end).open);
    }
    while ctx.open_set.len() > 0
        invariant
            search_after(pf, fig, start, end, move_time, force_down_time, rounds) == (SearchState {
                nodes: ctx.node_by_id@,
                open: ctx.open_set@,
                over: false,
                found: None,
            }),
            search_ok(pf, fig, start, move_time, force_down_time),
            start == *start_pos,
            end == *end_pos,
            mx == pace(move_time, force_down_time),
            0 <= pf.w() <= i32::MAX,
            0 <= pf.h() <= i32::MAX,
            ctx_ok(&ctx, pf, fig, start, end, move_time, force_down_time, op),
            box_size(pf, fig) <= 0x4000_0000_0000_0000,
            first ==> {
                &&& ctx.node_by_id@.len() == 1
                &&& ctx.open_set@.len() == 1
                &&& ctx.open_set@[0].id == 0
                &&& ctx.node_by_id@[0].pos == start
                &&& ctx.node_by_id@[0].time == 0
                &&& ctx.node_by_id@[0].last_time_move == 0
                &&& ctx.node_by_id@[0].last_time_down == 0
            },
            !first ==> !one_move_away(fig, start, end, move_time, force_down_time),
        decreases unseen(pf, fig, ctx.node_by_id@), 6 * lows(pf, fig, ctx.node_by_id@) + ctx.open_set@.len(),
    {
        let ghost n0 = ctx.node_by_id@;
        let ghost o0 = ctx.open_set@.len() as int;
        let ghost open0 = ctx.open_set@;
        proof {
            assert forall|j: int| 0 <= j < open0.len() implies (#[trigger] open0[j]).id < n0.len() by {}
        }
        let ghost was_first = first;
        let q = ctx.pop_best_open();
        let ghost open1 = ctx.open_set@;
        let ghost k = choose|k: int|
            0 <= k < open0.len() && ctx.open_set@ == open0.remove(k) && q == n0[open0[k].id as int];
        let ghost qi = q.id as int;
        proof {
            if was_first {
                assert(k == 0);
                assert(q == n0[0]);
            }
        }
        proof {
            assert(open0[k].id < n0.len() && op[open0[k].id as int]);
            assert(node_ok(fig, start, end, mx, n0, op, open0[k].id as int));
            assert(qi == open0[k].id);
            assert(n0[qi] == q);
            lemma_walked_bound(pf, fig, start, end, mx, n0, op, qi);
            assert(opened_ok(pf, fig, n0, op, qi));
            assert(node_ok(fig, start, end, mx, n0, op, qi));
            if qi > 0 {
                lemma_free_bounds(pf, fig, q.pos.coords());
            }
            assert forall|m: Movement| m != Movement::MoveUp implies #[trigger] q.pos.can_move(m) by {}
            assert forall|j: int| 0 <= j < ctx.open_set@.len() implies (#[trigger] ctx.open_set@[j]).id
                < n0.len() && op[ctx.open_set@[j].id as int] && ctx.open_set@[j].est == n0[ctx.open_set@[j].id as int].tot() by {
                if j < k {
                    assert(ctx.open_set@[j] == open0[j]);
                } else {
                    assert(ctx.open_set@[j] == open0[j + 1]);
                }
            }
            assert(ctx_ok(&ctx, pf, fig, start, end, move_time, force_down_time, op));
        }
        let possible_nodes = q.get_possible_moves(&mut ctx, Ghost(pf), Ghost(fig), Ghost(start), Ghost(end), Ghost(op));
        proof {
            op = op + unopened(possible_nodes@.len() as int);
        }
        let ghost n1 = ctx.node_by_id@;
        proof {
            lemma_round(pf, fig, start, end, move_time, force_down_time, rounds, n0, open0, q, possible_nodes@);
        }
        let ghost fresh = exists|j: int|
            n0.len() <= j < n1.len() && in_box(pf, fig, (#[trigger] n1[j]).pos.coords()) && low(
                n1,
                n1[j].pos.coords(),
                n0.len() as int,
            ) < 0;
        proof {
            assert forall|j: int| 0 <= j < n0.len() implies n0[j] == n1[j] by {}
            lemma_terms(pf, fig, n0, n1);
            lemma_total_le(
                |i: int| unseen_term(pf, fig, n1, i),
                |i: int| unseen_term(pf, fig, n0, i),
                box_size(pf, fig),
                0,
            );
            if fresh {
                let j = choose|j: int|
                    n0.len() <= j < n1.len() && in_box(pf, fig, (#[trigger] n1[j]).pos.coords()) && low(
                        n1,
                        n1[j].pos.coords(),
                        n0.len() as int,
                    ) < 0;
                let p = n1[j].pos.coords();
                lemma_box(pf, fig, p);
                let idx = box_index(pf, fig, p);
                lemma_low_same(n0, n1, p, n0.len() as int);
                lemma_low(n1, p, n1.len() as int);
                assert(unseen_term(pf, fig, n1, idx) < unseen_term(pf, fig, n0, idx));
                lemma_total_le(
                    |i: int| unseen_term(pf, fig, n1, i),
                    |i: int| unseen_term(pf, fig, n0, i),
                    box_size(pf, fig),
                    idx,
                );
            } else {
                lemma_total_ext(
                    |i: int| unseen_term(pf, fig, n1, i),
                    |i: int| unseen_term(pf, fig, n0, i),
                    box_size(pf, fig),
                );
                lemma_total_le(
                    |i: int| low_term(pf, fig, n1, i),
                    |i: int| low_term(pf, fig, n0, i),
                    box_size(pf, fig),
                    0,
                );
            }
        }
        let mut k2: usize = 0;
        let ghost mut pushed = false;
        while k2 < possible_nodes.len()
            invariant
                search_ok(pf, fig, start, move_time, force_down_time),
                start == *start_pos,
                end == *end_pos,
                mx == pace(move_time, force_down_time),
                0 <= pf.w() <= i32::MAX,
                0 <= pf.h() <= i32::MAX,
                ctx_ok(&ctx, pf, fig, start, end, move_time, force_down_time, op),
                ctx.node_by_id@ == n1,
                n1 == n0 + possible_nodes@,
                forall|j: int| 0 <= j < n0.len() ==> n0[j] == n1[j],
                0 <= qi < n0.len(),
                n0[qi] == q,
                q.id == qi,
                op[qi],
                opened_ok(pf, fig, n0, op.subrange(0, n0.len() as int), qi),
                q.walked <= box_size(pf, fig),
                qi == 0 ==> q.pos == start,
                qi > 0 ==> q.pos.x < pf.w() && q.pos.y < pf.h() && q.pos.x >= -i32::MAX,
                forall|j: int|
                    0 <= j < possible_nodes@.len() ==> (#[trigger] possible_nodes@[j]).id == n0.len() + j
                        && possible_nodes@[j].pid == Some(q.id) && possible_nodes@[j].mvmnt is Some
                        && possible_nodes@[j].pos.coords() == stepped(
                        q.pos.coords(),
                        possible_nodes@[j].mvmnt->0,
                        fig.num_faces(),
                    ) && -fig.num_faces() < possible_nodes@[j].pos.z < fig.num_faces()
                        && possible_nodes@[j].walked == q.walked + 1,
                0 <= k2 <= possible_nodes@.len(),
                possible_nodes@.len() <= 5,
                fresh == exists|j: int|
                    n0.len() <= j < n1.len() && in_box(pf, fig, (#[trigger] n1[j]).pos.coords()) && low(
                        n1,
                        n1[j].pos.coords(),
                        n0.len() as int,
                    ) < 0,
                box_size(pf, fig) <= 0x4000_0000_0000_0000,
                ctx.open_set@.len() <= o0 - 1 + k2,
                fresh ==> unseen(pf, fig, n1) < unseen(pf, fig, n0),
                !fresh ==> unseen(pf, fig, n1) == unseen(pf, fig, n0) && lows(pf, fig, n1) <= lows(pf, fig, n0)
                    && forall|i: int|
                    0 <= i < box_size(pf, fig) ==> #[trigger] low_term(pf, fig, n1, i) <= low_term(
                        pf,
                        fig,
                        n0,
                        i,
                    ),
                pushed ==> fresh || lows(pf, fig, n1) < lows(pf, fig, n0),
                !pushed ==> ctx.open_set@.len() <= o0 - 1,
                forall|j: int| 0 <= j < k2 ==> (#[trigger] possible_nodes@[j]).pos != end,
                scanned(pf, fig, end, n1, open1, possible_nodes@, k2 as int).0 == ctx.open_set@,
                scanned(pf, fig, end, n1, open1, possible_nodes@, k2 as int).1 is None,
                ctx.pf == pf,
                ctx.fig == fig,
                search_after(pf, fig, start, end, move_time, force_down_time, rounds + 1) == after_scan(
                    pf,
                    fig,
                    end,
                    n1,
                    open1,
                    possible_nodes@,
                ),
            decreases possible_nodes@.len() - k2,
        {
            let node = possible_nodes[k2];
            let ghost ni = node.id as int;
            proof {
                assert(n1[ni] == node);
            }
            if node.pos == *end_pos {
                // End was found
                let path = node.get_path(&ctx, Ghost(pf), Ghost(fig), Ghost(start), Ghost(end), Ghost(op));
                proof {
                    lemma_node_path_paced(fig, start, end, mx, n1, op, ni, move_time, force_down_time);
                    lemma_route_trail(pf, fig, start, end, mx, n1, op, ni);
                    let len = possible_nodes@.len() as int;
                    assert(scanned(pf, fig, end, n1, open1, possible_nodes@, k2 + 1).1 == Some(ni));
                    lemma_scanned_found(pf, fig, end, n1, open1, possible_nodes@, k2 + 1, len);
                    lemma_search_path(pf, fig, start, end, move_time, force_down_time, rounds + 1);
                }
                return path;
            } else {
                proof {
                    if qi == 0 {
                        lemma_fits_mono(fig, start.x + 1, start.y + 1, node.pos.x as int, node.pos.y as int);
                    } else {
                        lemma_fits_mono(fig, pf.w() + 1, pf.h() + 1, node.pos.x as int, node.pos.y as int);
                    }
                    assert forall|j: int| 0 <= j < n1.len() implies (#[trigger] n1[j]).tot() <= u64::MAX by {
                        assert(n1[j].walked <= box_size(pf, fig) + 1);
                        assert(node_ok(fig, start, end, mx, n1, op, j));
                    }
                }
                if !fig.test_collision(ctx.pf, &node.pos) && ctx.no_pos_with_lower_est(&node) {
                    ctx.mark_open(&node);
                    proof {
                        let old_op = op;
                        op = op.update(ni, true);
                        lemma_opened(pf, fig, start, end, mx, n1, old_op, qi, ni);
                        if !fresh {
                            let p = node.pos.coords();
                            lemma_free_in_box(pf, fig, p);
                            lemma_box(pf, fig, p);
                            let idx = box_index(pf, fig, p);
                            lemma_low_same(n0, n1, p, n0.len() as int);
                            lemma_low(n1, p, n0.len() as int);
                            lemma_low(n1, p, n1.len() as int);
                            assert(!(in_box(pf, fig, n1[ni].pos.coords()) && low(n1, n1[ni].pos.coords(), n0.len() as int) < 0));
                            let j0 = choose|j: int|
                                0 <= j < n0.len() && n1[j].pos.coords() == p && n1[j].tot() == low(n1, p, n0.len() as int);
                            assert(node_ok(fig, start, end, mx, n1, old_op, j0));
                            assert(n1[j0].id != node.id);
                            assert(n1[j0].pos == node.pos);
                            assert(low_term(pf, fig, n1, idx) < low_term(pf, fig, n0, idx));
                            lemma_total_le(
                                |i: int| low_term(pf, fig, n1, i),
                                |i: int| low_term(pf, fig, n0, i),
                                box_size(pf, fig),
                                idx,
                            );
                        }
                        pushed = true;
                    }
                }
            }
            k2 = k2 + 1;
        }
        ctx.mark_closed(&q);
        proof {
            rounds = rounds + 1;
            lemma_total_nonneg(|i: int| unseen_term(pf, fig, n1, i), box_size(pf, fig));
            lemma_total_nonneg(|i: int| low_term(pf, fig, n1, i), box_size(pf, fig));
            if was_first {
                lemma_first_moves(fig, start, end, move_time, force_down_time, q, possible_nodes@);
            }
            first = false;
        }
    }
    proof {
        lemma_round_empty(pf, fig, start, end, move_time, force_down_time, rounds);
    }
    let none: Vec<(Movement, u64)> = Vec::new();
    assert(none@ =~= Seq::<(Movement, u64)>::empty());
    none
}

/// When none of the nodes one move from the start is at the end, the end
/// is not one move away.
proof fn lemma_first_moves(fig: &Figure, start: PosDir, end: PosDir, move_time: u64, down_time: u64, q: Node, r: Seq<Node>)
    requires
        q.pos == start,
        q.time == 0,
        q.last_time_move == 0,
        q.last_time_down == 0,
        forall|j: int|
            0 <= j < r.len() ==> (#[trigger] r[j]).mvmnt is Some && r[j].pos.coords() == stepped(
                q.pos.coords(),
                r[j].mvmnt->0,
                fig.num_faces(),
            ),
        forall|j: int| 0 <= j < r.len() ==> (#[trigger] r[j]).pos != end,
        if move_time - (q.time - q.last_time_move) < down_time - (q.time - q.last_time_down) {
            r.map_values(|n: Node| n.mvmnt) == seq![
                Some(Movement::MoveLeft),
                Some(Movement::MoveRight),
                Some(Movement::RotateCW),
                Some(Movement::RotateCCW),
                Some(Movement::MoveDown),
            ]
        } else {
            r.map_values(|n: Node| n.mvmnt) == seq![Some(Movement::MoveDown)]
        },
    ensures
        !one_move_away(fig, start, end, move_time, down_time),
{
    let nf = fig.num_faces();
    let ms = r.map_values(|n: Node| n.mvmnt);
    assert forall|j: int| 0 <= j < r.len() implies stepped(start.coords(), r[j].mvmnt->0, nf) != end.coords() by {
        assert(r[j].pos != end);
    }
    if move_time < down_time {
        assert(ms.len() == 5);
        assert forall|m: Movement| m != Movement::MoveDown && m != Movement::MoveUp implies #[trigger] stepped(
            start.coords(),
            m,
            nf,
        ) != end.coords() by {
            let j: int = match m {
                Movement::MoveLeft => 0,
                Movement::MoveRight => 1,
                Movement::RotateCW => 2,
                Movement::RotateCCW => 3,
                _ => 4,
            };
            assert(ms[j] == r[j].mvmnt);
        }
        assert(ms[4] == r[4].mvmnt);
    } else {
        assert(ms[0] == r[0].mvmnt);
    }
}

/// Opening a node one move from an opened node, at a free place that no
/// other node reaches with a total estimate as low, keeps the list in
/// order.
proof fn lemma_opened(
    pf: &Playfield,
    fig: &Figure,
    start: PosDir,
    end: PosDir,
    mx: int,
    nodes: Seq<Node>,
    op: Seq<bool>,
    qi: int,
    ni: int,
)
    requires
        nodes_ok(pf, fig, start, end, mx, nodes, op),
        0 <= qi < ni < nodes.len(),
        op[qi],
        nodes[ni].pid is Some,
        nodes[ni].pid->0 == qi,
        nodes[ni].walked == nodes[qi].walked + 1,
        free(pf, fig, nodes[ni].pos.coords()),
        -fig.num_faces() < nodes[ni].pos.z < fig.num_faces(),
        forall|j: int|
            0 <= j < nodes.len() && (#[trigger] nodes[j]).id != nodes[ni].id && nodes[j].pos == nodes[ni].pos
                ==> nodes[j].tot() > nodes[ni].tot(),
    ensures
        nodes_ok(pf, fig, start, end, mx, nodes, op.update(ni, true)),
{
    let o2 = op.update(ni, true);
    assert(opened_ok(pf, fig, nodes, op, qi));
    lemma_chain(fig, start, end, mx, nodes, op, qi);
    let cq = chain(nodes, qi);
    let c = chain(nodes, ni);
    let x = nodes[ni].pos.coords();
    assert(c == cq.push(x));
    assert forall|k: int| 0 <= k < cq.len() implies cq[k] != x by {
        assert(cq[k] == chain(nodes, qi)[k]);
        let j = choose|j: int|
            #![trigger nodes[j]]
            0 <= j < nodes.len() && nodes[j].pos.coords() == chain(nodes, qi)[k] && nodes[j].walked == k && (k
                == nodes[qi].walked ==> j == qi) && (k < nodes[qi].walked ==> op[j]) && (k >= 1 ==> j >= 1);
        assert(node_ok(fig, start, end, mx, nodes, op, j));
        assert(node_ok(fig, start, end, mx, nodes, op, ni));
        if cq[k] == x {
            assert(nodes[j].pos == nodes[ni].pos);
            assert(nodes[j].id != nodes[ni].id);
            assert(nodes[j].tot() > nodes[ni].tot());
        }
    }
    assert(c.no_duplicates()) by {
        assert forall|a: int, b: int| 0 <= a < b < c.len() implies c[a] != c[b] by {
            if b < cq.len() {
                assert(c[a] == cq[a] && c[b] == cq[b]);
            } else {
                assert(c[a] == cq[a]);
            }
        }
    }
    assert forall|i: int| 0 <= i < nodes.len() implies #[trigger] node_ok(fig, start, end, mx, nodes, o2, i) by {
        assert(node_ok(fig, start, end, mx, nodes, op, i));
    }
    assert forall|i: int| 0 <= i < nodes.len() implies #[trigger] opened_ok(pf, fig, nodes, o2, i) by {
        assert(opened_ok(pf, fig, nodes, op, i));
    }
}

} // verus!
