use vstd::prelude::*;

use crate::cells::Cells3;
use crate::grid::figure::Figure;
use crate::grid::figure_pos::FigurePos;
use crate::grid::find_placement::{
    box_ok,
    explore,
    faces_have_blocks,
    fewest_steps_first,
    free,
    lemma_fits_mono,
    lemma_free_bounds,
    probes_in,
    reachable,
    rests,
    seen3,
    top_dir,
};
use crate::grid::matrix3::Matrix3;
use crate::grid::playfield::Playfield;
use crate::grid::pos_dir::{lemma_norm_dir_bounds, move_delta, norm_dir, PosDir};
use crate::grid::vec3::Vec3;
use crate::movement::Movement;

verus! {

/// The widest face of a figure.
pub open spec fn widest_upto(fig: &Figure, k: int) -> int
    decreases k,
{
    if k <= 0 {
        0
    } else {
        let w = fig.faces_spec()[k - 1].width();
        let m = widest_upto(fig, k - 1);
        if w > m {
            w
        } else {
            m
        }
    }
}

proof fn lemma_widest(fig: &Figure, k: int, i: int)
    requires
        0 <= i < k <= fig.num_faces(),
    ensures
        fig.faces_spec()[i].width() <= widest_upto(fig, k),
        widest_upto(fig, k) >= 0,
    decreases k,
{
    lemma_widest_nonneg(fig, k);
    if i < k - 1 {
        lemma_widest(fig, k - 1, i);
    }
}

proof fn lemma_widest_bound(fig: &Figure, k: int)
    requires
        fig.wf(),
        0 <= k <= fig.num_faces(),
    ensures
        widest_upto(fig, k) <= i32::MAX,
    decreases k,
{
    if k > 0 {
        fig.lemma_face_tl(k - 1);
        lemma_widest_bound(fig, k - 1);
    }
}

proof fn lemma_widest_nonneg(fig: &Figure, k: int)
    ensures
        widest_upto(fig, k) >= 0,
    decreases k,
{
    if k > 0 {
        lemma_widest_nonneg(fig, k - 1);
    }
}

/// The box of marks a search from `start` uses: columns from minus the
/// widest face to one past the playfield, rows from the start row to one
/// past the playfield, directions from the start direction to the highest
/// one a turn can reach.
pub open spec fn search_box(pf: &Playfield, fig: &Figure, start: (int, int, int)) -> Cells3<bool> {
    Cells3 {
        tl: (-widest_upto(fig, fig.num_faces()), start.1, start.2),
        br: (pf.w() + 1, pf.h() + 1, top_dir(fig, start.2) + 1),
        cells: Seq::empty(),
    }
}

/// The box fits the sizes that a box of marks can have.
pub open spec fn search_box_fits(pf: &Playfield, fig: &Figure, start: (int, int, int)) -> bool {
    let b = search_box(pf, fig, start);
    &&& b.width() * b.height() <= i32::MAX
    &&& b.width() * b.height() * b.depth() <= i32::MAX
}

//
// Returns a list of all valid placements of a figure in
// playfield. All positions returned should be possible to
// reach from the starting point.
//
pub fn get_valid_placing(pf: &Playfield, fig_pos: &FigurePos) -> (r: Vec<PosDir>)
    requires
        pf.wf(),
        fig_pos.wf(),
        faces_have_blocks(&fig_pos.fig_spec()),
        fig_pos.fig_spec().fits_at(pf.w() + 1, pf.h() + 1),
        fig_pos.fig_spec().fits_at(fig_pos.pos_spec().x as int, fig_pos.pos_spec().y as int),
        fig_pos.pos_spec().z < i32::MAX,
        free(pf, &fig_pos.fig_spec(), fig_pos.pos_spec().coords()) ==> search_box_fits(
            pf,
            &fig_pos.fig_spec(),
            fig_pos.pos_spec().coords(),
        ),
    ensures
        !free(pf, &fig_pos.fig_spec(), fig_pos.pos_spec().coords()) ==> r@.len() == 0,
        forall|i: int|
            0 <= i < r@.len() ==> reachable(
                pf,
                &fig_pos.fig_spec(),
                fig_pos.pos_spec().coords(),
                #[trigger] r@[i].coords(),
            ) && rests(pf, &fig_pos.fig_spec(), r@[i].coords()),
        forall|p: (int, int, int)|
            #[trigger] reachable(pf, &fig_pos.fig_spec(), fig_pos.pos_spec().coords(), p) && rests(
                pf,
                &fig_pos.fig_spec(),
                p,
            ) ==> exists|i: int| 0 <= i < r@.len() && r@[i].coords() == p,
        forall|i: int, j: int| 0 <= i < j < r@.len() ==> r@[i] != r@[j],
        fewest_steps_first(pf, &fig_pos.fig_spec(), fig_pos.pos_spec().coords(), r@),
{
    let start = *fig_pos.get_position();
    let fig = fig_pos.get_figure();
    if fig.test_collision(pf, &start) {
        return Vec::new();
    }
    proof {
        pf.lemma_wf();
        assert(free(pf, fig, start.coords()));
        lemma_free_bounds(pf, fig, start.coords());
    }
    let ghost st = start.coords();
    let ghost b = search_box(pf, fig, st);
    // The widest face
    let faces = fig.faces();
    let n = faces.len();
    let mut widest: u32 = 0;
    let mut i: usize = 0;
    while i < n
        invariant
            fig.wf(),
            n == fig.num_faces(),
            faces@.len() == n,
            forall|j: int|
                0 <= j < n ==> (#[trigger] faces@[j])@ == fig.faces_spec()[j] && faces@[j].wf(),
            0 <= i <= n,
            widest == widest_upto(fig, i as int),
        decreases n - i,
    {
        let w = faces[i].width();
        if w > widest {
            widest = w;
        }
        i = i + 1;
    }
    proof {
        lemma_widest_nonneg(fig, n as int);
        lemma_widest_bound(fig, n as int);
        let wd = b.width();
        let ht = b.height();
        let dp = b.depth();
        assert(wd == pf.w() + 1 + widest);
        assert(ht >= 1 && dp >= 1 && wd >= 1);
        assert(wd <= i32::MAX && ht <= i32::MAX && dp <= i32::MAX) by (nonlinear_arith)
            requires
                wd >= 1,
                ht >= 1,
                dp >= 1,
                wd * ht <= i32::MAX,
                wd * ht * dp <= i32::MAX,
        ;
    }
    let zmax: i32 = if start.z > n as i32 - 1 {
        start.z
    } else {
        n as i32 - 1
    };
    let tl = Vec3::new(-(widest as i32), start.y, start.z);
    let br = Vec3::new(pf.width() as i32 + 1, pf.height() as i32 + 1, zmax + 1);
    let mut visited: Matrix3<bool> = Matrix3::new_coords(tl, br, false);
    proof {
        assert(visited@.tl == b.tl && visited@.br == b.br);
        assert forall|q: (int, int, int)| visited@.contains(q) implies !#[trigger] seen3(visited@, q) by {
            visited@.lemma_contains_index(q);
        }
        assert forall|p: (int, int, int)|
            #[trigger] free(pf, fig, p) && st.1 <= p.1 && st.2 <= p.2 <= top_dir(fig, st.2) implies probes_in(
            visited@,
            pf,
            fig,
            p,
        ) by {
            lemma_free_bounds(pf, fig, p);
            let k = ((p.2 as i32) as usize) as int % (n as int);
            lemma_widest(fig, n as int, k);
            if free(pf, fig, (p.0, p.1 + 1, p.2)) {
                lemma_free_bounds(pf, fig, (p.0, p.1 + 1, p.2));
            }
        }
    }
    explore(pf, fig, start, &mut visited)
}


/// One move of a path: the move itself, then the direction brought back
/// into the range of `n` faces.
pub open spec fn stepped(p: (int, int, int), m: Movement, n: int) -> (int, int, int) {
    let d = move_delta(m);
    (p.0 + d.0, p.1 + d.1, norm_dir(p.2 + d.2, n))
}

/// The moves `ms` take the figure from `p` to `e`, each move to a free
/// place other than the one it leaves.
pub open spec fn leads(
    pf: &Playfield,
    fig: &Figure,
    p: (int, int, int),
    ms: Seq<Movement>,
    e: (int, int, int),
) -> bool
    decreases ms.len(),
{
    if ms.len() == 0 {
        p == e
    } else {
        let q = stepped(p, ms[0], fig.num_faces());
        &&& q != p
        &&& free(pf, fig, q)
        &&& leads(pf, fig, q, ms.drop_first(), e)
    }
}

/// The moves of a found path in the order they are made: the path lists
/// its last move first.
pub open spec fn path_moves(r: Seq<(Movement, u64)>) -> Seq<Movement> {
    Seq::new(r.len(), |i: int| r[r.len() - 1 - i].0)
}

/// The estimated distance between two places: the sum of the differences
/// in column, row and direction.
pub open spec fn est_spec(a: (int, int, int), b: (int, int, int)) -> int {
    abs_int(a.0 - b.0) + abs_int(a.1 - b.1) + abs_int(a.2 - b.2)
}

pub open spec fn abs_int(x: int) -> int {
    if x < 0 {
        -x
    } else {
        x
    }
}

proof fn lemma_leads_push(
    pf: &Playfield,
    fig: &Figure,
    p: (int, int, int),
    ms: Seq<Movement>,
    b: (int, int, int),
    m: Movement,
    c: (int, int, int),
)
    requires
        leads(pf, fig, p, ms, b),
        stepped(b, m, fig.num_faces()) == c,
        c != b,
        free(pf, fig, c),
    ensures
        leads(pf, fig, p, ms.push(m), c),
    decreases ms.len(),
{
    let ms2 = ms.push(m);
    if ms.len() == 0 {
        assert(ms2.drop_first() =~= Seq::<Movement>::empty());
        assert(ms2[0] == m);
        assert(leads(pf, fig, c, ms2.drop_first(), c));
    } else {
        let q = stepped(p, ms[0], fig.num_faces());
        lemma_leads_push(pf, fig, q, ms.drop_first(), b, m, c);
        assert(ms2.drop_first() =~= ms.drop_first().push(m));
        assert(ms2[0] == ms[0]);
    }
}

/// A node of the search: a place, how it was reached and when.
#[derive(Clone, Copy, Debug)]
pub struct Node {
    pub id: usize,
    pub parent: Option<usize>,
    pub pos: PosDir,
    pub walked_distance: u64,  // g
    pub est_distance_end: u64,  // h
    pub movement: Option<Movement>,
    pub time: u64,
    pub last_time_move: u64,
    pub last_time_down: u64,
}

impl Node {
    /// The walked distance and the estimate to the end together.
    pub open spec fn tot(self) -> int {
        self.walked_distance + self.est_distance_end
    }

    fn new(
        node_list: &mut Vec<Node>,
        parent: Option<usize>,
        pos: &PosDir,
        walked_distance: u64,
        est_distance_end: u64,
        movement: Option<Movement>,
        time: u64,
        last_time_move: u64,
        last_time_down: u64,
    ) -> (r: Node)
        requires
            old(node_list)@.len() < usize::MAX,
        ensures
            r == (Node {
                id: old(node_list)@.len() as usize,
                parent,
                pos: *pos,
                walked_distance,
                est_distance_end,
                movement,
                time,
                last_time_move,
                last_time_down,
            }),
            final(node_list)@ == old(node_list)@.push(r),
    {
        let node = Node {
            id: node_list.len(),
            parent: parent,
            pos: *pos,
            walked_distance: walked_distance,
            est_distance_end: est_distance_end,
            movement: movement,
            time: time,
            last_time_move: last_time_move,
            last_time_down: last_time_down,
        };
        node_list.push(node);
        node
    }

    fn get_tot_est(&self) -> (r: u64)
        requires
            self.tot() <= u64::MAX,
        ensures
            r == self.tot(),
    {
        self.walked_distance + self.est_distance_end
    }
}

/// Node `i` of the search list: its id is its index, its times are in
/// order, and every node but the first has an earlier parent and a move.
spec fn linked(nodes: Seq<Node>, i: int) -> bool {
    let nd = nodes[i];
    &&& nd.id == i
    &&& nd.last_time_move <= nd.time
    &&& nd.last_time_down <= nd.time
    &&& nd.time <= i * 0x8000_0000_0000
    &&& nd.walked_distance <= i * 0x3_0000_0000
    &&& nd.est_distance_end <= 0x3_0000_0000
    &&& if i == 0 {
        nd.parent is None
    } else {
        &&& nd.parent is Some
        &&& 0 <= nd.parent->0 < i
        &&& nd.movement is Some
        &&& nodes[nd.parent->0 as int].time <= nd.time
    }
}

/// Node `i` stands at the start, or one move from its parent at a free
/// place other than the parent's.
spec fn placed(pf: &Playfield, fig: &Figure, start: PosDir, nodes: Seq<Node>, i: int) -> bool {
    let nd = nodes[i];
    if i == 0 {
        nd.pos == start
    } else {
        let pp = nodes[nd.parent->0 as int].pos.coords();
        &&& stepped(pp, nd.movement->0, fig.num_faces()) == nd.pos.coords()
        &&& nd.pos.coords() != pp
        &&& free(pf, fig, nd.pos.coords())
        &&& -fig.num_faces() < nd.pos.z < fig.num_faces()
    }
}

/// `n` is the node of the list with its id.
spec fn listed(nodes: Seq<Node>, n: Node) -> bool {
    &&& 0 <= n.id < nodes.len()
    &&& nodes[n.id as int] == n
    &&& n.tot() <= u64::MAX
}

/// The moves from the first node to node `i`, following the parents.
spec fn route(nodes: Seq<Node>, i: int) -> Seq<Movement>
    decreases i,
{
    if i <= 0 {
        Seq::empty()
    } else if nodes[i].parent is Some && 0 <= nodes[i].parent->0 < i {
        route(nodes, nodes[i].parent->0 as int).push(nodes[i].movement->0)
    } else {
        Seq::empty()
    }
}

proof fn lemma_route_leads(pf: &Playfield, fig: &Figure, start: PosDir, nodes: Seq<Node>, i: int)
    requires
        0 <= i < nodes.len(),
        forall|k: int| 0 <= k < nodes.len() ==> #[trigger] linked(nodes, k),
        forall|k: int| 0 <= k < nodes.len() ==> #[trigger] placed(pf, fig, start, nodes, k),
    ensures
        leads(pf, fig, start.coords(), route(nodes, i), nodes[i].pos.coords()),
    decreases i,
{
    assert(linked(nodes, i) && placed(pf, fig, start, nodes, i));
    if i > 0 {
        let p = nodes[i].parent->0 as int;
        lemma_route_leads(pf, fig, start, nodes, p);
        lemma_leads_push(
            pf,
            fig,
            start.coords(),
            route(nodes, p),
            nodes[p].pos.coords(),
            nodes[i].movement->0,
            nodes[i].pos.coords(),
        );
    }
}

fn est_distance(start: &PosDir, end: &PosDir) -> (r: u64)
    ensures
        r == est_spec(start.coords(), end.coords()),
{
    let dx = start.get_x() as i64 - end.get_x() as i64;
    let dy = start.get_y() as i64 - end.get_y() as i64;
    let dz = start.get_dir() as i64 - end.get_dir() as i64;
    let ax: u64 = if dx < 0 {
        (-dx) as u64
    } else {
        dx as u64
    };
    let ay: u64 = if dy < 0 {
        (-dy) as u64
    } else {
        dy as u64
    };
    let az: u64 = if dz < 0 {
        (-dz) as u64
    } else {
        dz as u64
    };
    ax + ay + az
}

fn no_pos_with_lower_est(set: &Vec<Node>, node: &Node) -> (r: bool)
    requires
        node.tot() <= u64::MAX,
        forall|j: int| 0 <= j < set@.len() ==> (#[trigger] set@[j]).tot() <= u64::MAX,
    ensures
        r == !exists|j: int|
            0 <= j < set@.len() && (#[trigger] set@[j]).pos == node.pos && set@[j].tot() < node.tot(),
{
    let mut i: usize = 0;
    while i < set.len()
        invariant
            node.tot() <= u64::MAX,
            forall|j: int| 0 <= j < set@.len() ==> (#[trigger] set@[j]).tot() <= u64::MAX,
            0 <= i <= set@.len(),
            forall|j: int|
                0 <= j < i ==> !((#[trigger] set@[j]).pos == node.pos && set@[j].tot() < node.tot()),
        decreases set@.len() - i,
    {
        let n = set[i];
        if n.pos == node.pos && n.get_tot_est() < node.get_tot_est() {
            return false;
        }
        i = i + 1;
    }
    true
}

/// Moves the entry at `j` towards the front past every entry with a lower
/// total estimate.
pub open spec fn sunk(s: Seq<Node>, j: int) -> Seq<Node>
    decreases j,
{
    if 0 < j < s.len() && s[j - 1].tot() < s[j].tot() {
        sunk(s.update(j - 1, s[j]).update(j, s[j - 1]), j - 1)
    } else {
        s
    }
}

/// The entries once the first `i` have each been moved into place, highest
/// total estimate first.
pub open spec fn sorted_upto(s: Seq<Node>, i: int) -> Seq<Node>
    decreases i,
{
    if i <= 0 {
        s
    } else {
        sunk(sorted_upto(s, i - 1), i - 1)
    }
}

/// The moves tried from a node: left, right, down and a clockwise turn when
/// a regular move is due before the next fall, else only down.
pub open spec fn tried_moves(q: Node, move_time: u64, down_time: u64) -> Seq<Movement> {
    if move_time - (q.time - q.last_time_move) < down_time - (q.time - q.last_time_down) {
        seq![Movement::MoveLeft, Movement::MoveRight, Movement::MoveDown, Movement::RotateCW]
    } else {
        seq![Movement::MoveDown]
    }
}

/// The time still to wait, never below zero.
pub open spec fn waited(until: int) -> int {
    if until > 0 {
        until
    } else {
        0
    }
}

/// The place a movement takes a node to, the direction brought back into
/// range.
pub open spec fn moved_pos(q: Node, m: Movement, nf: int) -> PosDir {
    let d = move_delta(m);
    PosDir { x: (q.pos.x + d.0) as i32, y: (q.pos.y + d.1) as i32, z: norm_dir(q.pos.z + d.2, nf) as i32 }
}

/// The node made from `q` by movement `m` as the `id`-th node.
pub open spec fn next_node(q: Node, m: Movement, id: int, nf: int, end: PosDir, move_time: u64, down_time: u64) -> Node {
    let p = moved_pos(q, m, nf);
    let down = m == Movement::MoveDown;
    let t = if down {
        q.time + waited(down_time - (q.time - q.last_time_down))
    } else {
        q.time + waited(move_time - (q.time - q.last_time_move))
    };
    Node {
        id: id as usize,
        parent: Some(q.id),
        pos: p,
        walked_distance: (q.walked_distance + est_spec(q.pos.coords(), p.coords())) as u64,
        est_distance_end: est_spec(p.coords(), end.coords()) as u64,
        movement: Some(m),
        time: t as u64,
        last_time_move: if down {
            q.last_time_move
        } else {
            t as u64
        },
        last_time_down: if down {
            t as u64
        } else {
            q.last_time_down
        },
    }
}

/// The first `k` moves tried from `q`: each that leads to another place
/// where the figure fits adds a node. The nodes, and the new ones.
#[verifier::opaque]
pub open spec fn successors_of(
    pf: &Playfield,
    fig: &Figure,
    end: PosDir,
    move_time: u64,
    down_time: u64,
    q: Node,
    ms: Seq<Movement>,
    k: int,
    all: Seq<Node>,
) -> (Seq<Node>, Seq<Node>)
    decreases k,
{
    if k <= 0 {
        (all, Seq::empty())
    } else {
        let prev = successors_of(pf, fig, end, move_time, down_time, q, ms, k - 1, all);
        let p = moved_pos(q, ms[k - 1], fig.num_faces());
        if p != q.pos && !pf.collides(fig.face_for(p.z), (p.x as int, p.y as int)) {
            let n = next_node(q, ms[k - 1], prev.0.len() as int, fig.num_faces(), end, move_time, down_time);
            (prev.0.push(n), prev.1.push(n))
        } else {
            prev
        }
    }
}

proof fn lemma_successors_step(
    pf: &Playfield,
    fig: &Figure,
    end: PosDir,
    move_time: u64,
    down_time: u64,
    q: Node,
    ms: Seq<Movement>,
    k: int,
    all: Seq<Node>,
)
    requires
        0 <= k < ms.len(),
    ensures
        ({
            let prev = successors_of(pf, fig, end, move_time, down_time, q, ms, k, all);
            let p = moved_pos(q, ms[k], fig.num_faces());
            let n = next_node(q, ms[k], prev.0.len() as int, fig.num_faces(), end, move_time, down_time);
            successors_of(pf, fig, end, move_time, down_time, q, ms, k + 1, all) == if p != q.pos
                && !pf.collides(fig.face_for(p.z), (p.x as int, p.y as int)) {
                (prev.0.push(n), prev.1.push(n))
            } else {
                prev
            }
        }),
{
    reveal(successors_of);
}

proof fn lemma_successors_zero(
    pf: &Playfield,
    fig: &Figure,
    end: PosDir,
    move_time: u64,
    down_time: u64,
    q: Node,
    ms: Seq<Movement>,
    all: Seq<Node>,
)
    ensures
        successors_of(pf, fig, end, move_time, down_time, q, ms, 0, all) == (all, Seq::<Node>::empty()),
{
    reveal(successors_of);
}

/// Some entry of the set at the node's place has a lower total estimate.
pub open spec fn lower_in(set: Seq<Node>, s: Node) -> bool {
    exists|j: int| 0 <= j < set.len() && (#[trigger] set[j]).pos == s.pos && set[j].tot() < s.tot()
}

/// The first `k` successors looked at in turn: the search ends at the
/// first one at the end; the others are opened where neither the open
/// nor the closed entries have one at that place with a lower estimate.
pub open spec fn scan_succ(
    end: PosDir,
    open: Seq<Node>,
    closed: Seq<Node>,
    succ: Seq<Node>,
    k: int,
) -> (Seq<Node>, Option<int>)
    decreases k,
{
    if k <= 0 {
        (open, None)
    } else {
        let prev = scan_succ(end, open, closed, succ, k - 1);
        let s = succ[k - 1];
        if prev.1 is Some {
            prev
        } else if s.pos == end {
            (prev.0, Some(s.id as int))
        } else if !lower_in(prev.0, s) && !lower_in(closed, s) {
            (prev.0.push(s), None)
        } else {
            prev
        }
    }
}

/// Where the bounded search stands.
pub struct Bounded {
    pub all: Seq<Node>,
    pub open: Seq<Node>,
    pub closed: Seq<Node>,
    pub over: bool,
    pub found: Option<int>,
}

/// One round of the bounded search: with no open entry or with the node
/// limit reached it is over; else the open entries are ordered, the one
/// with the lowest estimate is taken, and its successors looked at.
#[verifier::opaque]
pub open spec fn bounded_round(
    pf: &Playfield,
    fig: &Figure,
    end: PosDir,
    move_time: u64,
    down_time: u64,
    st: Bounded,
) -> Bounded {
    if st.over {
        st
    } else if st.open.len() == 0 || st.all.len() >= 40000 {
        Bounded { over: true, found: None, ..st }
    } else {
        let sorted = sorted_upto(st.open, st.open.len() as int);
        let q = sorted.last();
        let ms = tried_moves(q, move_time, down_time);
        let gen = successors_of(pf, fig, end, move_time, down_time, q, ms, ms.len() as int, st.all);
        let sc = scan_succ(end, sorted.drop_last(), st.closed, gen.1, gen.1.len() as int);
        Bounded { all: gen.0, open: sc.0, closed: st.closed.push(q), over: sc.1 is Some, found: sc.1 }
    }
}

/// The bounded search before its first round.
pub open spec fn bounded_start(start: PosDir) -> Bounded {
    let n0 = Node {
        id: 0,
        parent: None,
        pos: start,
        walked_distance: 0,
        est_distance_end: 0,
        movement: None,
        time: 0,
        last_time_move: 0,
        last_time_down: 0,
    };
    Bounded { all: seq![n0], open: seq![n0], closed: Seq::empty(), over: false, found: None }
}

/// The bounded search after `k` rounds.
pub open spec fn bounded_after(
    pf: &Playfield,
    fig: &Figure,
    start: PosDir,
    end: PosDir,
    move_time: u64,
    down_time: u64,
    k: nat,
) -> Bounded
    decreases k,
{
    if k == 0 {
        bounded_start(start)
    } else {
        bounded_round(pf, fig, end, move_time, down_time, bounded_after(pf, fig, start, end, move_time, down_time, (k - 1) as nat))
    }
}

/// The moves and times from the first node to node `i`, last move first.
pub open spec fn traced(all: Seq<Node>, i: int) -> Seq<(Movement, u64)>
    decreases i,
{
    if 0 < i < all.len() && all[i].parent is Some && all[i].parent->0 < i && all[i].movement is Some {
        seq![(all[i].movement->0, all[i].time)] + traced(all, all[i].parent->0 as int)
    } else {
        Seq::empty()
    }
}

/// The clock after the moves of a found path (listed last move first):
/// the time, the time of the last regular move and that of the last fall.
/// A fall waits for the next fall to be due, any other move for the next
/// regular move.
pub open spec fn pace_clock(r: Seq<(Movement, u64)>, move_time: u64, down_time: u64) -> (int, int, int)
    decreases r.len(),
{
    if r.len() == 0 {
        (0, 0, 0)
    } else {
        let c = pace_clock(r.drop_first(), move_time, down_time);
        if r[0].0 == Movement::MoveDown {
            let t = c.0 + waited(down_time - (c.0 - c.2));
            (t, c.1, t)
        } else {
            let t = c.0 + waited(move_time - (c.0 - c.1));
            (t, t, c.2)
        }
    }
}

/// A found path keeps the pace: each move is made at the time the clock
/// gives it, and a move other than a fall only when the next regular move
/// is due before the next fall.
pub open spec fn paced(r: Seq<(Movement, u64)>, move_time: u64, down_time: u64) -> bool
    decreases r.len(),
{
    if r.len() == 0 {
        true
    } else {
        let c = pace_clock(r.drop_first(), move_time, down_time);
        &&& paced(r.drop_first(), move_time, down_time)
        &&& r[0].1 == pace_clock(r, move_time, down_time).0
        &&& r[0].0 != Movement::MoveDown ==> move_time - (c.0 - c.1) < down_time - (c.0 - c.2)
    }
}

/// Node `i` keeps the pace from its parent: its times follow from the
/// parent's by its move, and a move other than a fall was made only when
/// a regular move was due before the next fall.
spec fn paced_node(nodes: Seq<Node>, i: int, move_time: u64, down_time: u64) -> bool {
    let nd = nodes[i];
    if i == 0 {
        nd.time == 0 && nd.last_time_move == 0 && nd.last_time_down == 0
    } else {
        let q = nodes[nd.parent->0 as int];
        if nd.movement->0 == Movement::MoveDown {
            &&& nd.time == q.time + waited(down_time - (q.time - q.last_time_down))
            &&& nd.last_time_down == nd.time
            &&& nd.last_time_move == q.last_time_move
        } else {
            &&& move_time - (q.time - q.last_time_move) < down_time - (q.time - q.last_time_down)
            &&& nd.time == q.time + waited(move_time - (q.time - q.last_time_move))
            &&& nd.last_time_move == nd.time
            &&& nd.last_time_down == q.last_time_down
        }
    }
}

proof fn lemma_traced_paced(nodes: Seq<Node>, i: int, move_time: u64, down_time: u64)
    requires
        0 <= i < nodes.len(),
        forall|k: int| 0 <= k < nodes.len() ==> #[trigger] linked(nodes, k),
        forall|k: int| 0 <= k < nodes.len() ==> #[trigger] paced_node(nodes, k, move_time, down_time),
    ensures
        paced(traced(nodes, i), move_time, down_time),
        pace_clock(traced(nodes, i), move_time, down_time) == (
            nodes[i].time as int,
            nodes[i].last_time_move as int,
            nodes[i].last_time_down as int,
        ),
    decreases i,
{
    assert(linked(nodes, i) && paced_node(nodes, i, move_time, down_time));
    if i > 0 {
        let p = nodes[i].parent->0 as int;
        lemma_traced_paced(nodes, p, move_time, down_time);
        let r = traced(nodes, i);
        assert(r == seq![(nodes[i].movement->0, nodes[i].time)] + traced(nodes, p));
        assert(r.drop_first() =~= traced(nodes, p));
    }
}

/// The path the bounded search finds from `start` to `end`: rounds are run
/// until it is over; the path to the node found at the end, last move
/// first, or no moves when the open entries ran out or the node limit was
/// reached first.
pub open spec fn bounded_path(
    pf: &Playfield,
    fig: &Figure,
    start: PosDir,
    end: PosDir,
    move_time: u64,
    down_time: u64,
) -> Seq<(Movement, u64)> {
    let k = choose|k: nat| #[trigger] bounded_after(pf, fig, start, end, move_time, down_time, k).over;
    let st = bounded_after(pf, fig, start, end, move_time, down_time, k);
    match st.found {
        Some(i) => traced(st.all, i),
        None => Seq::empty(),
    }
}

proof fn lemma_bounded_over(
    pf: &Playfield,
    fig: &Figure,
    start: PosDir,
    end: PosDir,
    move_time: u64,
    down_time: u64,
    k1: nat,
    k2: nat,
)
    requires
        k1 <= k2,
        bounded_after(pf, fig, start, end, move_time, down_time, k1).over,
    ensures
        bounded_after(pf, fig, start, end, move_time, down_time, k2) == bounded_after(
            pf,
            fig,
            start,
            end,
            move_time,
            down_time,
            k1,
        ),
    decreases k2 - k1,
{
    reveal(bounded_round);
    if k1 < k2 {
        lemma_bounded_over(pf, fig, start, end, move_time, down_time, k1, (k2 - 1) as nat);
    }
}

proof fn lemma_bounded_path(
    pf: &Playfield,
    fig: &Figure,
    start: PosDir,
    end: PosDir,
    move_time: u64,
    down_time: u64,
    k: nat,
)
    requires
        bounded_after(pf, fig, start, end, move_time, down_time, k).over,
    ensures
        bounded_path(pf, fig, start, end, move_time, down_time) == (match bounded_after(
            pf,
            fig,
            start,
            end,
            move_time,
            down_time,
            k,
        ).found {
            Some(i) => traced(bounded_after(pf, fig, start, end, move_time, down_time, k).all, i),
            None => Seq::empty(),
        }),
{
    let k2 = choose|k: nat| #[trigger] bounded_after(pf, fig, start, end, move_time, down_time, k).over;
    if k2 <= k {
        lemma_bounded_over(pf, fig, start, end, move_time, down_time, k2, k);
    } else {
        lemma_bounded_over(pf, fig, start, end, move_time, down_time, k, k2);
    }
}

proof fn lemma_scan_found(end: PosDir, open: Seq<Node>, closed: Seq<Node>, succ: Seq<Node>, k1: int, k2: int)
    requires
        0 <= k1 <= k2,
        scan_succ(end, open, closed, succ, k1).1 is Some,
    ensures
        scan_succ(end, open, closed, succ, k2) == scan_succ(end, open, closed, succ, k1),
    decreases k2 - k1,
{
    if k1 < k2 {
        lemma_scan_found(end, open, closed, succ, k1, k2 - 1);
    }
}

/// The state after a round with open entries, below the node limit.
spec fn bounded_next(
    pf: &Playfield,
    fig: &Figure,
    end: PosDir,
    move_time: u64,
    down_time: u64,
    st: Bounded,
) -> Bounded {
    let sorted = sorted_upto(st.open, st.open.len() as int);
    let q = sorted.last();
    let ms = tried_moves(q, move_time, down_time);
    let gen = successors_of(pf, fig, end, move_time, down_time, q, ms, ms.len() as int, st.all);
    let sc = scan_succ(end, sorted.drop_last(), st.closed, gen.1, gen.1.len() as int);
    Bounded { all: gen.0, open: sc.0, closed: st.closed.push(q), over: sc.1 is Some, found: sc.1 }
}

proof fn lemma_bounded_round(
    pf: &Playfield,
    fig: &Figure,
    start: PosDir,
    end: PosDir,
    move_time: u64,
    down_time: u64,
    k: nat,
)
    requires
        !bounded_after(pf, fig, start, end, move_time, down_time, k).over,
    ensures
        ({
            let st = bounded_after(pf, fig, start, end, move_time, down_time, k);
            bounded_after(pf, fig, start, end, move_time, down_time, k + 1) == if st.open.len() == 0
                || st.all.len() >= 40000 {
                Bounded { over: true, found: None, ..st }
            } else {
                bounded_next(pf, fig, end, move_time, down_time, st)
            }
        }),
{
    reveal(bounded_round);
}

/// Swapping two entries keeps the entries, each as often.
proof fn lemma_swap_multiset(s: Seq<Node>, i: int, k: int)
    requires
        0 <= i < s.len(),
        0 <= k < s.len(),
        i != k,
    ensures
        s.update(i, s[k]).update(k, s[i]).to_multiset() == s.to_multiset(),
{
    broadcast use vstd::seq_lib::to_multiset_update;
    broadcast use vstd::multiset::group_multiset_axioms;

    let s1 = s.update(i, s[k]);
    assert(s1[k] == s[k]);
    let m = s.to_multiset();
    assert(m.count(s[i]) > 0) by {
        broadcast use vstd::seq_lib::to_multiset_contains;

        assert(s.contains(s[i]));
    }
    assert(s1.update(k, s[i]).to_multiset() =~= m);
}

/// Orders the open nodes by total estimate, highest first, keeping the
/// order of nodes with equal estimates.
fn sort_by_tot_desc(v: &mut Vec<Node>, Ghost(nodes): Ghost<Seq<Node>>)
    requires
        forall|j: int| 0 <= j < old(v)@.len() ==> listed(nodes, #[trigger] old(v)@[j]),
    ensures
        final(v)@.len() == old(v)@.len(),
        final(v)@.to_multiset() == old(v)@.to_multiset(),
        forall|a: int, b: int| 0 <= a < b < final(v)@.len() ==> (#[trigger] final(v)@[a]).tot() >= (
        #[trigger] final(v)@[b]).tot(),
        forall|j: int| 0 <= j < final(v)@.len() ==> listed(nodes, #[trigger] final(v)@[j]),
        final(v)@ == sorted_upto(old(v)@, old(v)@.len() as int),
{
    let ghost v0 = v@;
    let n = v.len();
    let mut i: usize = 0;
    while i < n
        invariant
            v@.len() == n,
            0 <= i <= n,
            v@.to_multiset() == v0.to_multiset(),
            forall|a: int, b: int| 0 <= a < b < i ==> (#[trigger] v@[a]).tot() >= (#[trigger] v@[b]).tot(),
            forall|j: int| 0 <= j < v@.len() ==> listed(nodes, #[trigger] v@[j]),
            v@ == sorted_upto(v0, i as int),
            n == v0.len(),
        decreases n - i,
    {
        let ghost vi = v@;
        let mut j: usize = i;
        while j > 0 && v[j - 1].get_tot_est() < v[j].get_tot_est()
            invariant
                v@.len() == n,
                0 <= j <= i < n,
                v@.to_multiset() == v0.to_multiset(),
                forall|a: int, b: int|
                    0 <= a < b <= i && a != j && b != j ==> (#[trigger] v@[a]).tot() >= (#[trigger] v@[b]).tot(),
                forall|b: int| j < b <= i ==> v@[j as int].tot() > (#[trigger] v@[b]).tot(),
                forall|k: int| 0 <= k < v@.len() ==> listed(nodes, #[trigger] v@[k]),
                sunk(vi, i as int) == sunk(v@, j as int),
            decreases j,
        {
            let ghost before = v@;
            let a = v[j - 1];
            let b = v[j];
            v.set(j - 1, b);
            v.set(j, a);
            proof {
                lemma_swap_multiset(before, j - 1, j as int);
                assert(v@ == before.update(j - 1, before[j as int]).update(j as int, before[j - 1]));
                assert(sunk(before, j as int) == sunk(v@, j - 1));
                assert forall|x: int, y: int|
                    0 <= x < y <= i && x != j - 1 && y != j - 1 implies (#[trigger] v@[x]).tot() >= (
                    #[trigger] v@[y]).tot() by {
                    if x == j {
                        assert(v@[x] == before[j - 1]);
                        assert(before[j - 1].tot() >= before[y].tot());
                    } else if y == j {
                        assert(v@[y] == before[j - 1]);
                        assert(before[x].tot() >= before[j - 1].tot());
                    } else {
                        assert(v@[x] == before[x] && v@[y] == before[y]);
                    }
                }
                assert forall|y: int| j - 1 < y <= i implies v@[j - 1].tot() > (#[trigger] v@[y]).tot() by {
                    if y == j {
                        assert(v@[y] == before[j - 1]);
                    } else {
                        assert(v@[y] == before[y]);
                    }
                }
            }
            j = j - 1;
        }
        proof {
            assert(sunk(v@, j as int) == v@);
            assert(sorted_upto(v0, i + 1) == sunk(sorted_upto(v0, i as int), i as int));
            assert forall|x: int, y: int| 0 <= x < y < i + 1 implies (#[trigger] v@[x]).tot() >= (
            #[trigger] v@[y]).tot() by {
                if y == j {
                    if x < j - 1 {
                        assert(v@[x].tot() >= v@[j - 1].tot());
                    }
                } else if x == j {
                } else {
                }
            }
        }
        i = i + 1;
    }
}

/// The moves and times from the first node to node `last`, last move first.
fn trace_back(all: &Vec<Node>, last: usize) -> (path: Vec<(Movement, u64)>)
    requires
        last < all@.len(),
        forall|i: int| 0 <= i < all@.len() ==> #[trigger] linked(all@, i),
    ensures
        path_moves(path@) == route(all@, last as int),
        forall|j: int| 0 <= j < path@.len() - 1 ==> (#[trigger] path@[j]).1 >= path@[j + 1].1,
        last != 0 ==> path@.len() > 0,
        path@ == traced(all@, last as int),
{
    let mut p: usize = last;
    let mut path: Vec<(Movement, u64)> = Vec::new();
    assert(linked(all@, last as int));
    while all[p].id != 0
        invariant
            p < all@.len(),
            forall|i: int| 0 <= i < all@.len() ==> #[trigger] linked(all@, i),
            route(all@, last as int) == route(all@, p as int) + path_moves(path@),
            forall|j: int| 0 <= j < path@.len() - 1 ==> (#[trigger] path@[j]).1 >= path@[j + 1].1,
            path@.len() > 0 ==> path@[path@.len() - 1].1 >= all@[p as int].time,
            p == last || path@.len() > 0,
            traced(all@, last as int) == path@ + traced(all@, p as int),
        decreases p,
    {
        assert(linked(all@, p as int));
        let nd = all[p];
        let m = nd.movement.unwrap();
        let ghost old_path = path@;
        let parent = nd.parent.unwrap();
        assert(linked(all@, parent as int));
        path.push((m, nd.time));
        proof {
            assert(path_moves(path@) =~= seq![m] + path_moves(old_path));
            assert(route(all@, p as int) == route(all@, parent as int).push(m));
            assert(route(all@, parent as int).push(m) + path_moves(old_path) =~= route(all@, parent as int)
                + (seq![m] + path_moves(old_path)));
            assert(traced(all@, p as int) == seq![(m, nd.time)] + traced(all@, parent as int));
            assert(old_path + (seq![(m, nd.time)] + traced(all@, parent as int)) =~= path@ + traced(
                all@,
                parent as int,
            ));
        }
        p = parent;
    }
    proof {
        assert(linked(all@, p as int));
        assert(route(all@, p as int) =~= Seq::<Movement>::empty());
        assert(route(all@, last as int) =~= path_moves(path@));
        assert(traced(all@, p as int) =~= Seq::<(Movement, u64)>::empty());
        assert(path@ + traced(all@, p as int) =~= path@);
    }
    path
}


#[verifier::spinoff_prover]
proof fn lemma_nodes_push(pf: &Playfield, fig: &Figure, start: PosDir, nodes: Seq<Node>, x: Node)
    requires
        forall|k: int| 0 <= k < nodes.len() ==> #[trigger] linked(nodes, k),
        forall|k: int| 0 <= k < nodes.len() ==> #[trigger] placed(pf, fig, start, nodes, k),
        linked(nodes.push(x), nodes.len() as int),
        placed(pf, fig, start, nodes.push(x), nodes.len() as int),
    ensures
        forall|k: int| 0 <= k < nodes.len() + 1 ==> #[trigger] linked(nodes.push(x), k),
        forall|k: int| 0 <= k < nodes.len() + 1 ==> #[trigger] placed(pf, fig, start, nodes.push(x), k),
        forall|n: Node| listed(nodes, n) ==> #[trigger] listed(nodes.push(x), n),
{
    let s = nodes.push(x);
    assert forall|k: int| 0 <= k < nodes.len() + 1 implies #[trigger] linked(s, k) && placed(
        pf,
        fig,
        start,
        s,
        k,
    ) by {
        if k < nodes.len() {
            assert(linked(nodes, k) && placed(pf, fig, start, nodes, k));
            assert(s[k] == nodes[k]);
            if k > 0 {
                assert(s[nodes[k].parent->0 as int] == nodes[nodes[k].parent->0 as int]);
            }
        }
    }
    assert forall|k: int| 0 <= k < nodes.len() + 1 implies #[trigger] placed(pf, fig, start, s, k) by {
        assert(linked(s, k) && placed(pf, fig, start, s, k));
    }
}

/// Each of the first `k` moves from `p` that leads to another place where
/// the figure fits has a successor at that place.
#[verifier::opaque]
spec fn tried(pf: &Playfield, fig: &Figure, p: (int, int, int), ms: Seq<Movement>, k: int, succ: Seq<Node>) -> bool {
    forall|i: int|
        0 <= i < k && #[trigger] stepped(p, ms[i], fig.num_faces()) != p && free(
            pf,
            fig,
            stepped(p, ms[i], fig.num_faces()),
        ) ==> exists|j: int|
            0 <= j < succ.len() && (#[trigger] succ[j]).pos.coords() == stepped(p, ms[i], fig.num_faces())
}

proof fn lemma_tried_push(
    pf: &Playfield,
    fig: &Figure,
    p: (int, int, int),
    ms: Seq<Movement>,
    k: int,
    succ: Seq<Node>,
    x: Node,
)
    requires
        tried(pf, fig, p, ms, k, succ),
        0 <= k < ms.len(),
        x.pos.coords() == stepped(p, ms[k], fig.num_faces()),
    ensures
        tried(pf, fig, p, ms, k + 1, succ.push(x)),
{
    reveal(tried);
    let s2 = succ.push(x);
    assert forall|i: int|
        0 <= i < k + 1 && #[trigger] stepped(p, ms[i], fig.num_faces()) != p && free(
            pf,
            fig,
            stepped(p, ms[i], fig.num_faces()),
        ) implies exists|j: int|
        0 <= j < s2.len() && (#[trigger] s2[j]).pos.coords() == stepped(p, ms[i], fig.num_faces()) by {
        if i < k {
            let j0 = choose|j: int|
                0 <= j < succ.len() && (#[trigger] succ[j]).pos.coords() == stepped(p, ms[i], fig.num_faces());
            assert(s2[j0] == succ[j0]);
        } else {
            assert(s2[succ.len() as int] == x);
        }
    }
}

proof fn lemma_tried_skip(pf: &Playfield, fig: &Figure, p: (int, int, int), ms: Seq<Movement>, k: int, succ: Seq<Node>)
    requires
        tried(pf, fig, p, ms, k, succ),
        0 <= k < ms.len(),
        !(stepped(p, ms[k], fig.num_faces()) != p && free(pf, fig, stepped(p, ms[k], fig.num_faces()))),
    ensures
        tried(pf, fig, p, ms, k + 1, succ),
{
    reveal(tried);
}

proof fn lemma_tried_find(
    pf: &Playfield,
    fig: &Figure,
    p: (int, int, int),
    ms: Seq<Movement>,
    succ: Seq<Node>,
    i: int,
) -> (j: int)
    requires
        tried(pf, fig, p, ms, ms.len() as int, succ),
        0 <= i < ms.len(),
        stepped(p, ms[i], fig.num_faces()) != p,
        free(pf, fig, stepped(p, ms[i], fig.num_faces())),
    ensures
        0 <= j < succ.len(),
        succ[j].pos.coords() == stepped(p, ms[i], fig.num_faces()),
{
    reveal(tried);
    choose|j: int| 0 <= j < succ.len() && (#[trigger] succ[j]).pos.coords() == stepped(p, ms[i], fig.num_faces())
}

/// The end is one move from the start among the moves tried first, a
/// place other than the start where the figure fits: a move down, or, when
/// a regular move is due before the first fall, a step sideways or a
/// clockwise turn.
pub open spec fn first_step_to(
    pf: &Playfield,
    fig: &Figure,
    start: PosDir,
    end: PosDir,
    move_time: u64,
    down_time: u64,
) -> bool {
    let n = fig.num_faces();
    let s = start.coords();
    let e = end.coords();
    &&& e != s
    &&& free(pf, fig, e)
    &&& (stepped(s, Movement::MoveDown, n) == e || (move_time < down_time && (stepped(s, Movement::MoveLeft, n)
        == e || stepped(s, Movement::MoveRight, n) == e || stepped(s, Movement::RotateCW, n) == e)))
}

//
// Searches a path for the figure from `start_pos` to `end_pos`, moving at
// the pace of `move_time` and falling every `force_down_time`. The path
// lists its moves with their times, last move first; it is empty when no
// path was found within the search limit.
//
#[verifier::spinoff_prover]
#[verifier::rlimit(60)]
pub fn find_path(
    pf: &Playfield,
    fig: &Figure,
    start_pos: &PosDir,
    end_pos: &PosDir,
    move_time: u64,
    force_down_time: u64,
) -> (r: Vec<(Movement, u64)>)
    requires
        pf.wf(),
        fig.wf(),
        0 < fig.num_faces() <= i32::MAX,
        faces_have_blocks(fig),
        fig.fits_at(pf.w() + 1, pf.h() + 1),
        i32::MIN < start_pos.x,
        start_pos.z < i32::MAX,
        fig.fits_at(start_pos.x + 1, start_pos.y + 1),
        move_time <= 0x8000_0000_0000,
        force_down_time <= 0x8000_0000_0000,
    ensures
        r@.len() > 0 ==> leads(pf, fig, start_pos.coords(), path_moves(r@), end_pos.coords()),
        forall|j: int| 0 <= j < r@.len() - 1 ==> (#[trigger] r@[j]).1 >= r@[j + 1].1,
        first_step_to(pf, fig, *start_pos, *end_pos, move_time, force_down_time) ==> r@.len() > 0,
        r@ == bounded_path(pf, fig, *start_pos, *end_pos, move_time, force_down_time),
        paced(r@, move_time, force_down_time),
{
    let nfaces = fig.faces().len();
    let ghost n = fig.num_faces();
    let ghost start = *start_pos;
    proof {
        pf.lemma_wf();
        fig.lemma_face_tl(0);
    }
    let mut all: Vec<Node> = Vec::new();
    let mut open_set: Vec<Node> = Vec::new();
    let mut closed_set: Vec<Node> = Vec::new();
    let start_node = Node::new(&mut all, None, start_pos, 0, 0, None, 0, 0, 0);
    open_set.push(start_node);
    assert(linked(all@, 0) && placed(pf, fig, start, all@, 0));
    assert(paced_node(all@, 0, move_time, force_down_time));
    let ghost mut first = true;
    let ghost mut rounds: nat = 0;
    proof {
        assert(all@ =~= bounded_start(start).all);
        assert(open_set@ =~= bounded_start(start).open);
        assert(closed_set@ =~= bounded_start(start).closed);
    }
    while open_set.len() > 0 && all.len() < 40000
        invariant
            bounded_after(pf, fig, start, *end_pos, move_time, force_down_time, rounds) == (Bounded {
                all: all@,
                open: open_set@,
                closed: closed_set@,
                over: false,
                found: None,
            }),
            first ==> {
                &&& all@.len() == 1
                &&& open_set@.len() == 1
                &&& all@[0].pos == start
                &&& all@[0].time == 0
                &&& all@[0].last_time_move == 0
                &&& all@[0].last_time_down == 0
            },
            !first ==> !first_step_to(pf, fig, start, *end_pos, move_time, force_down_time),
            pf.wf(),
            fig.wf(),
            0 < n <= i32::MAX,
            n == fig.num_faces(),
            nfaces == n,
            faces_have_blocks(fig),
            fig.fits_at(pf.w() + 1, pf.h() + 1),
            0 <= pf.w() <= i32::MAX,
            0 <= pf.h() <= i32::MAX,
            start == *start_pos,
            i32::MIN < start.x,
            start.z < i32::MAX,
            start.x + 1 <= i32::MAX,
            start.y + 1 <= i32::MAX,
            fig.fits_at(start.x + 1, start.y + 1),
            move_time <= 0x8000_0000_0000,
            force_down_time <= 0x8000_0000_0000,
            1 <= all@.len() <= 40003,
            forall|k: int| 0 <= k < all@.len() ==> #[trigger] linked(all@, k),
            forall|k: int| 0 <= k < all@.len() ==> #[trigger] placed(pf, fig, start, all@, k),
            forall|k: int| 0 <= k < all@.len() ==> #[trigger] paced_node(all@, k, move_time, force_down_time),
            forall|j: int| 0 <= j < open_set@.len() ==> listed(all@, #[trigger] open_set@[j]),
            forall|j: int| 0 <= j < closed_set@.len() ==> listed(all@, #[trigger] closed_set@[j]),
        decreases 5 * (40004 - all@.len()) + open_set@.len(),
    {
        let ghost st = bounded_after(pf, fig, start, *end_pos, move_time, force_down_time, rounds);
        proof {
            lemma_bounded_round(pf, fig, start, *end_pos, move_time, force_down_time, rounds);
        }
        sort_by_tot_desc(&mut open_set, Ghost(all@));
        let ghost open_len = open_set@.len();
        let ghost sorted = open_set@;
        assert(listed(all@, open_set@[open_len - 1]));
        let q = open_set.pop().unwrap();
        assert(forall|j: int| 0 <= j < open_set@.len() ==> open_set@[j] == sorted[j]);
        let ghost all0 = all@.len();
        let ghost qi = q.id as int;
        let ghost was_first = first;
        assert(linked(all@, qi) && placed(pf, fig, start, all@, qi));
        assert(all@[qi] == q);
        assert(was_first ==> q.pos == start && q.time == 0 && q.last_time_move == 0 && q.last_time_down == 0);
        // Decide if the next move is a forced down move or any move
        let time_since_move = (q.time - q.last_time_move) as i64;
        let time_since_down = (q.time - q.last_time_down) as i64;
        let time_until_move = move_time as i64 - time_since_move;
        let time_until_down = force_down_time as i64 - time_since_down;
        let movements: Vec<Movement> = if time_until_move < time_until_down {
            // Regular move
            vec![Movement::MoveLeft, Movement::MoveRight, Movement::MoveDown, Movement::RotateCW]
        } else {
            // Forced down move
            vec![Movement::MoveDown]
        };
        let ghost regular = time_until_move < time_until_down;
        let ghost mv0 = movements@;
        let ghost open1 = open_set@;
        let ghost all_start = all@;
        assert(sorted.drop_last() =~= open1);
        assert(movements@ == tried_moves(q, move_time, force_down_time));
        assert(mv0 == if regular {
            seq![Movement::MoveLeft, Movement::MoveRight, Movement::MoveDown, Movement::RotateCW]
        } else {
            seq![Movement::MoveDown]
        });
        proof {
            if qi > 0 {
                lemma_free_bounds(pf, fig, q.pos.coords());
            }
        }
        // Find all possible movements from q (left, right, down, rotate)
        let mut successors: Vec<Node> = Vec::new();
        let mut k: usize = 0;
        proof {
            reveal(tried);
            lemma_successors_zero(pf, fig, *end_pos, move_time, force_down_time, q, movements@, all_start);
        }
        while k < movements.len()
            invariant
                pf.wf(),
                fig.wf(),
                0 < n <= i32::MAX,
                n == fig.num_faces(),
                nfaces == n,
                faces_have_blocks(fig),
                fig.fits_at(pf.w() + 1, pf.h() + 1),
                0 <= pf.w() <= i32::MAX,
                0 <= pf.h() <= i32::MAX,
                start == *start_pos,
                i32::MIN < start.x,
                start.z < i32::MAX,
                fig.fits_at(start.x + 1, start.y + 1),
                move_time <= 0x8000_0000_0000,
                force_down_time <= 0x8000_0000_0000,
                movements@.len() <= 4,
                forall|i: int|
                    0 <= i < movements@.len() ==> (#[trigger] movements@[i]) != Movement::MoveUp
                        && movements@[i] != Movement::RotateCCW,
                0 <= k <= movements@.len(),
                all0 < 40000,
                all@.len() == all0 + successors@.len(),
                successors@.len() <= k,
                0 <= qi < all0,
                q.id == qi,
                all@[qi] == q,
                linked(all@, qi),
                start.x + 1 <= i32::MAX,
                start.y + 1 <= i32::MAX,
                qi == 0 ==> q.pos == start,
                qi > 0 ==> {
                    &&& q.pos.x < pf.w()
                    &&& q.pos.x >= -i32::MAX
                    &&& q.pos.y < pf.h()
                    &&& -n < q.pos.z < n
                },
                time_until_move <= move_time,
                time_until_down <= force_down_time,
                forall|i: int| 0 <= i < all@.len() ==> #[trigger] linked(all@, i),
                forall|i: int| 0 <= i < all@.len() ==> #[trigger] placed(pf, fig, start, all@, i),
                forall|i: int| 0 <= i < all@.len() ==> #[trigger] paced_node(all@, i, move_time, force_down_time),
                regular == (time_until_move < time_until_down),
                movements@ == mv0,
                mv0 == if regular {
                    seq![Movement::MoveLeft, Movement::MoveRight, Movement::MoveDown, Movement::RotateCW]
                } else {
                    seq![Movement::MoveDown]
                },
                forall|j: int| 0 <= j < open_set@.len() ==> listed(all@, #[trigger] open_set@[j]),
                forall|j: int| 0 <= j < closed_set@.len() ==> listed(all@, #[trigger] closed_set@[j]),
                forall|j: int| 0 <= j < successors@.len() ==> listed(all@, #[trigger] successors@[j]),
                tried(pf, fig, q.pos.coords(), movements@, k as int, successors@),
                forall|j: int| 0 <= j < successors@.len() ==> (#[trigger] successors@[j]).id >= all0,
                successors_of(pf, fig, *end_pos, move_time, force_down_time, q, movements@, k as int, all_start)
                    == (all@, successors@),
                time_until_move == move_time - (q.time - q.last_time_move),
                time_until_down == force_down_time - (q.time - q.last_time_down),
            decreases movements@.len() - k,
        {
            let movement = movements[k];
            let mut fig_pos = q.pos.apply_move(&movement);
            fig_pos.normalize_dir(nfaces);
            proof {
                lemma_successors_step(pf, fig, *end_pos, move_time, force_down_time, q, movements@, k as int, all_start);
                assert(fig_pos == moved_pos(q, movement, n));
                lemma_norm_dir_bounds(q.pos.z + move_delta(movement).2, n);
                if qi == 0 {
                    lemma_fits_mono(fig, start.x + 1, start.y + 1, fig_pos.x as int, fig_pos.y as int);
                } else {
                    lemma_fits_mono(fig, pf.w() + 1, pf.h() + 1, fig_pos.x as int, fig_pos.y as int);
                }
            }
            if fig_pos != q.pos && !fig.test_collision(pf, &fig_pos) {
                let mut ltd = q.last_time_down;
                let mut ltm = q.last_time_move;
                let mut tt = q.time;
                if movement == Movement::MoveDown {
                    let wait: u64 = if time_until_down > 0 {
                        time_until_down as u64
                    } else {
                        0
                    };
                    tt = tt + wait;
                    ltd = tt;
                } else {
                    let wait: u64 = if time_until_move > 0 {
                        time_until_move as u64
                    } else {
                        0
                    };
                    tt = tt + wait;
                    ltm = tt;
                }
                let step = est_distance(&q.pos, &fig_pos);
                let to_end = est_distance(&fig_pos, end_pos);
                let ghost before = all@;
                let succ = Node::new(
                    &mut all,
                    Some(q.id),
                    &fig_pos,
                    q.walked_distance + step,
                    to_end,
                    Some(movement),
                    tt,
                    ltm,
                    ltd,
                );
                proof {
                    assert(succ == next_node(q, movement, before.len() as int, n, *end_pos, move_time, force_down_time));
                    assert(before.push(succ)[qi] == q);
                    assert(linked(before.push(succ), before.len() as int));
                    assert(placed(pf, fig, start, before.push(succ), before.len() as int));
                    lemma_nodes_push(pf, fig, start, before, succ);
                    let after = before.push(succ);
                    assert(movement != Movement::MoveDown ==> regular);
                    assert forall|i: int| 0 <= i < after.len() implies #[trigger] paced_node(after, i, move_time, force_down_time) by {
                        if i < before.len() {
                            assert(paced_node(before, i, move_time, force_down_time));
                            assert(linked(before, i));
                            assert(after[i] == before[i]);
                            if i > 0 {
                                assert(after[after[i].parent->0 as int] == before[before[i].parent->0 as int]);
                            }
                        } else {
                            assert(after[i] == succ);
                            assert(after[qi] == q);
                        }
                    }
                }
                let ghost s0 = successors@;
                successors.push(succ);
                proof {
                    lemma_tried_push(pf, fig, q.pos.coords(), movements@, k as int, s0, succ);
                }
            } else {
                proof {
                    lemma_tried_skip(pf, fig, q.pos.coords(), movements@, k as int, successors@);
                }
            }
            k = k + 1;
        }
        let mut k2: usize = 0;
        while k2 < successors.len()
            invariant
                0 <= k2 <= successors@.len(),
                all@.len() == all0 + successors@.len(),
                all0 < 40000,
                successors@.len() <= 4,
                open_set@.len() <= open_len - 1 + k2,
                start == *start_pos,
                forall|i: int| 0 <= i < all@.len() ==> #[trigger] linked(all@, i),
                forall|i: int| 0 <= i < all@.len() ==> #[trigger] placed(pf, fig, start, all@, i),
                forall|i: int| 0 <= i < all@.len() ==> #[trigger] paced_node(all@, i, move_time, force_down_time),
                forall|j: int| 0 <= j < open_set@.len() ==> listed(all@, #[trigger] open_set@[j]),
                forall|j: int| 0 <= j < closed_set@.len() ==> listed(all@, #[trigger] closed_set@[j]),
                forall|j: int| 0 <= j < successors@.len() ==> listed(all@, #[trigger] successors@[j]),
                forall|j: int| 0 <= j < k2 ==> (#[trigger] successors@[j]).pos != *end_pos,
                scan_succ(*end_pos, open1, closed_set@, successors@, k2 as int) == (open_set@, None::<int>),
                bounded_after(pf, fig, start, *end_pos, move_time, force_down_time, rounds + 1) == bounded_next(
                    pf,
                    fig,
                    *end_pos,
                    move_time,
                    force_down_time,
                    st,
                ),
                st.closed == closed_set@,
                sorted_upto(st.open, st.open.len() as int).drop_last() == open1,
                successors_of(
                    pf,
                    fig,
                    *end_pos,
                    move_time,
                    force_down_time,
                    sorted_upto(st.open, st.open.len() as int).last(),
                    tried_moves(sorted_upto(st.open, st.open.len() as int).last(), move_time, force_down_time),
                    tried_moves(sorted_upto(st.open, st.open.len() as int).last(), move_time, force_down_time).len()
                        as int,
                    st.all,
                ) == (all@, successors@),
                all0 >= 1,
                forall|j: int| 0 <= j < successors@.len() ==> (#[trigger] successors@[j]).id >= all0,
            decreases successors@.len() - k2,
        {
            let s = successors[k2];
            assert(listed(all@, successors@[k2 as int]));
            if s.pos == *end_pos {
                // End was found
                let path = trace_back(&all, s.id);
                proof {
                    lemma_traced_paced(all@, s.id as int, move_time, force_down_time);
                    lemma_route_leads(pf, fig, start, all@, s.id as int);
                    assert(scan_succ(*end_pos, open1, closed_set@, successors@, k2 + 1).1 == Some(s.id as int));
                    lemma_scan_found(*end_pos, open1, closed_set@, successors@, k2 + 1, successors@.len() as int);
                    lemma_bounded_path(pf, fig, start, *end_pos, move_time, force_down_time, rounds + 1);
                }
                return path;
            }
            if no_pos_with_lower_est(&open_set, &s) && no_pos_with_lower_est(&closed_set, &s) {
                open_set.push(s);
            }
            k2 = k2 + 1;
        }
        closed_set.push(q);
        assert(listed(all@, q));
        proof {
            if was_first && first_step_to(pf, fig, start, *end_pos, move_time, force_down_time) {
                let e = end_pos.coords();
                let sc = start.coords();
                let i: int = if stepped(sc, Movement::MoveDown, n) == e {
                    if regular { 2 } else { 0 }
                } else if stepped(sc, Movement::MoveLeft, n) == e {
                    0
                } else if stepped(sc, Movement::MoveRight, n) == e {
                    1
                } else {
                    3
                };
                assert(stepped(q.pos.coords(), movements@[i], n) == e);
                let j = lemma_tried_find(pf, fig, q.pos.coords(), movements@, successors@, i);
                assert(successors@[j].pos == *end_pos);
            }
            first = false;
            rounds = rounds + 1;
        }
    }
    proof {
        lemma_bounded_round(pf, fig, start, *end_pos, move_time, force_down_time, rounds);
        lemma_bounded_path(pf, fig, start, *end_pos, move_time, force_down_time, rounds + 1);
    }
    let none: Vec<(Movement, u64)> = Vec::new();
    assert(none@ =~= Seq::<(Movement, u64)>::empty());
    none
}

} // verus!
