use vstd::prelude::*;

use crate::cells::Cells;
use crate::grid::block::{Block, BlockState};
use crate::grid::figure::{rotations, Figure};
use crate::grid::figure_face::lowest_row_spec;
use crate::grid::figure_pos::FigurePos;
use crate::grid::playfield::{cleared, covers, source, Playfield};
use crate::grid::position::Position;

verus! {

/// Changes between set and clear from column to column along row `y`,
/// among the first `k` columns.
pub open spec fn row_changes(pf: &Playfield, y: int, k: int) -> int
    decreases k,
{
    if k <= 1 {
        0
    } else {
        row_changes(pf, y, k - 1) + if pf.occupied(k - 1, y) != pf.occupied(k - 2, y) {
            1int
        } else {
            0
        }
    }
}

/// Changes between set and clear from row to row down column `x`, among
/// the first `k` rows.
pub open spec fn col_changes(pf: &Playfield, x: int, k: int) -> int
    decreases k,
{
    if k <= 1 {
        0
    } else {
        col_changes(pf, x, k - 1) + if pf.occupied(x, k - 1) != pf.occupied(x, k - 2) {
            1int
        } else {
            0
        }
    }
}

/// The row changes of rows `0..k`.
pub open spec fn row_jitter_upto(pf: &Playfield, k: int) -> int
    decreases k,
{
    if k <= 0 {
        0
    } else {
        row_jitter_upto(pf, k - 1) + row_changes(pf, k - 1, pf.w())
    }
}

/// The column changes of columns `-1..k - 1`.
pub open spec fn col_jitter_upto(pf: &Playfield, k: int) -> int
    decreases k,
{
    if k <= 0 {
        0
    } else {
        col_jitter_upto(pf, k - 1) + col_changes(pf, k - 2, pf.h())
    }
}

/// The height of column `x`: from the first set block down to the floor,
/// zero for an empty column; among the first `k` rows.
pub open spec fn col_height(pf: &Playfield, x: int, k: int) -> int
    decreases k,
{
    if k <= 0 {
        0
    } else if col_height(pf, x, k - 1) > 0 {
        col_height(pf, x, k - 1)
    } else if pf.occupied(x, k - 1) {
        pf.h() - (k - 1)
    } else {
        0
    }
}

/// The summed heights of the first `k` columns.
pub open spec fn total_height_upto(pf: &Playfield, k: int) -> int
    decreases k,
{
    if k <= 0 {
        0
    } else {
        total_height_upto(pf, k - 1) + col_height(pf, k - 1, pf.h())
    }
}

/// The greatest height of a set block among the first `k` columns.
pub open spec fn max_height_upto(pf: &Playfield, k: int) -> int
    decreases k,
{
    if k <= 0 {
        0
    } else {
        let m = max_height_upto(pf, k - 1);
        let c = col_height(pf, k - 1, pf.h());
        if c > m {
            c
        } else {
            m
        }
    }
}

proof fn lemma_changes_bound(pf: &Playfield, y: int, k: int)
    ensures
        0 <= row_changes(pf, y, k) <= if k > 0 { k } else { 0 },
        0 <= col_changes(pf, y, k) <= if k > 0 { k } else { 0 },
    decreases k,
{
    if k > 1 {
        lemma_changes_bound(pf, y, k - 1);
    }
}

proof fn lemma_col_height_bound(pf: &Playfield, x: int, k: int)
    requires
        0 <= k <= pf.h(),
    ensures
        0 <= col_height(pf, x, k) <= pf.h(),
    decreases k,
{
    if k > 0 {
        lemma_col_height_bound(pf, x, k - 1);
    }
}

/// The number of changes between set and clear along the rows, the row
/// below the playfield included.
pub fn get_pf_row_jitter(pf: &Playfield) -> (r: u32)
    requires
        pf.wf(),
        pf.h() < i32::MAX,
    ensures
        r == row_jitter_upto(pf, pf.h() + 1),
{
    proof {
        pf.lemma_wf();
    }
    let w = pf.width() as i32;
    let hh = pf.height() as i32 + 1;
    let mut jitter: u32 = 0;
    let mut y: i32 = 0;
    while y < hh
        invariant
            pf.wf(),
            w == pf.w(),
            hh == pf.h() + 1,
            0 <= pf.w() <= i32::MAX,
            0 <= pf.h() <= i32::MAX,
            pf.w() * pf.h() <= i32::MAX,
            0 <= y <= hh,
            jitter == row_jitter_upto(pf, y as int),
            jitter <= y * pf.w(),
        decreases hh - y,
    {
        let mut last_state = pf.block_is_set(Position::new(0, y));
        let mut x: i32 = 0;
        let ghost j0 = jitter;
        proof {
            assert((y + 1) * pf.w() <= 2 * 0x7fff_ffff) by (nonlinear_arith)
                requires
                    y <= pf.h(),
                    0 <= pf.w(),
                    pf.w() * pf.h() <= 0x7fff_ffff,
                    pf.w() <= 0x7fff_ffff,
            ;
        }
        while x < w
            invariant
                pf.wf(),
                w == pf.w(),
                0 <= x <= w,
                0 <= y < hh,
                hh == pf.h() + 1,
                (y + 1) * pf.w() <= 2 * 0x7fff_ffff,
                j0 == row_jitter_upto(pf, y as int),
                j0 <= y * pf.w(),
                jitter == j0 + row_changes(pf, y as int, x as int),
                last_state == if x == 0 {
                    pf.occupied(0, y as int)
                } else {
                    pf.occupied(x - 1, y as int)
                },
            decreases w - x,
        {
            proof {
                lemma_changes_bound(pf, y as int, x as int);
                assert(y * pf.w() + x <= (y + 1) * pf.w()) by (nonlinear_arith)
                    requires
                        x < pf.w(),
                ;
            }
            let state = pf.block_is_set(Position::new(x, y));
            if last_state != state {
                last_state = state;
                jitter = jitter + 1;
            }
            x = x + 1;
        }
        proof {
            lemma_changes_bound(pf, y as int, pf.w());
            assert(y * pf.w() + pf.w() == (y + 1) * pf.w()) by (nonlinear_arith);
        }
        y = y + 1;
    }
    jitter
}

/// The number of changes between set and clear down the columns, the
/// columns beside the playfield included.
pub fn get_pf_col_jitter(pf: &Playfield) -> (r: u32)
    requires
        pf.wf(),
        pf.w() < i32::MAX,
    ensures
        r == col_jitter_upto(pf, pf.w() + 2),
{
    proof {
        pf.lemma_wf();
    }
    let ww = pf.width() as i32 + 1;
    let h = pf.height() as i32;
    let mut jitter: u32 = 0;
    let mut x: i32 = -1;
    while x < ww
        invariant
            pf.wf(),
            ww == pf.w() + 1,
            h == pf.h(),
            0 <= pf.w() <= i32::MAX,
            0 <= pf.h() <= i32::MAX,
            pf.w() * pf.h() <= i32::MAX,
            -1 <= x <= ww,
            jitter == col_jitter_upto(pf, x + 1),
            jitter <= (if x < 0 {
                0
            } else if x <= pf.w() {
                x as int
            } else {
                pf.w()
            }) * pf.h(),
        decreases ww - x,
    {
        let mut last_state = pf.block_is_set(Position::new(x, 0));
        let mut y: i32 = 0;
        let ghost j0 = jitter;
        let ghost inner = if x < 0 {
            0
        } else if x <= pf.w() {
            x as int
        } else {
            pf.w()
        };
        proof {
            if 0 <= x < pf.w() {
                assert((x + 1) * pf.h() <= 0x7fff_ffff) by (nonlinear_arith)
                    requires
                        x + 1 <= pf.w(),
                        0 <= pf.h(),
                        pf.w() * pf.h() <= 0x7fff_ffff,
                ;
            }
            assert(0 <= inner * pf.h() <= 0x7fff_ffff) by (nonlinear_arith)
                requires
                    0 <= inner <= pf.w(),
                    0 <= pf.h(),
                    pf.w() * pf.h() <= 0x7fff_ffff,
            ;
        }
        while y < h
            invariant
                pf.wf(),
                h == pf.h(),
                0 <= y <= h,
                -1 <= x < ww,
                ww == pf.w() + 1,
                inner == (if x < 0 {
                    0
                } else if x <= pf.w() {
                    x as int
                } else {
                    pf.w()
                }),
                0 <= x < pf.w() ==> (x + 1) * pf.h() <= 0x7fff_ffff,
                0 <= inner * pf.h() <= 0x7fff_ffff,
                j0 == col_jitter_upto(pf, x + 1),
                j0 <= inner * pf.h(),
                (x < 0 || x >= pf.w()) ==> jitter == j0,
                jitter == j0 + col_changes(pf, x as int, y as int),
                last_state == if y == 0 {
                    pf.occupied(x as int, 0)
                } else {
                    pf.occupied(x as int, y - 1)
                },
            decreases h - y,
        {
            proof {
                lemma_changes_bound(pf, x as int, y as int);
                if 0 <= x < pf.w() {
                    assert(x * pf.h() + y <= (x + 1) * pf.h()) by (nonlinear_arith)
                        requires
                            y < pf.h(),
                    ;
                }
            }
            let state = pf.block_is_set(Position::new(x, y));
            if last_state != state {
                last_state = state;
                jitter = jitter + 1;
            }
            y = y + 1;
        }
        proof {
            lemma_changes_bound(pf, x as int, pf.h());
            if 0 <= x < pf.w() {
                assert(x * pf.h() + pf.h() == (x + 1) * pf.h()) by (nonlinear_arith);
            }
        }
        x = x + 1;
    }
    jitter
}

/// The summed heights of all columns.
pub fn get_pf_total_height(pf: &Playfield) -> (r: i32)
    requires
        pf.wf(),
    ensures
        r == total_height_upto(pf, pf.w()),
{
    proof {
        pf.lemma_wf();
    }
    let w = pf.width() as i32;
    let h = pf.height() as i32;
    let mut total_height: i32 = 0;
    let mut x: i32 = 0;
    while x < w
        invariant
            pf.wf(),
            w == pf.w(),
            h == pf.h(),
            0 <= pf.w() <= i32::MAX,
            0 <= pf.h() <= i32::MAX,
            pf.w() * pf.h() <= i32::MAX,
            0 <= x <= w,
            total_height == total_height_upto(pf, x as int),
            0 <= total_height <= x * pf.h(),
        decreases w - x,
    {
        let mut y: i32 = 0;
        while y < h
            invariant
                pf.wf(),
                h == pf.h(),
                0 <= y <= h,
                0 <= x < w,
                w == pf.w(),
                forall|yy: int| 0 <= yy < y ==> !pf.occupied(x as int, yy),
                col_height(pf, x as int, y as int) == 0,
            ensures
                0 <= y <= h,
                col_height(pf, x as int, y as int) == 0,
                y < h ==> pf.occupied(x as int, y as int),
            decreases h - y,
        {
            if pf.block_is_set(Position::new(x, y)) {
                break;
            }
            y = y + 1;
        }
        proof {
            lemma_col_height_bound(pf, x as int, pf.h());
            assert(x * pf.h() + pf.h() <= 0x7fff_ffff) by (nonlinear_arith)
                requires
                    x < pf.w(),
                    pf.w() * pf.h() <= 0x7fff_ffff,
                    0 <= pf.h(),
            ;
            lemma_col_height_rest(pf, x as int, y as int);
            assert(x * pf.h() + pf.h() == (x + 1) * pf.h()) by (nonlinear_arith);
        }
        if y < h {
            total_height = total_height + (h - y);
        }
        x = x + 1;
    }
    total_height
}

/// Once a column has a height among its first `k` rows, more rows keep it.
proof fn lemma_col_height_rest(pf: &Playfield, x: int, y: int)
    requires
        0 <= y <= pf.h(),
        col_height(pf, x, y) == 0,
        y < pf.h() ==> pf.occupied(x, y),
    ensures
        col_height(pf, x, pf.h()) == if y < pf.h() {
            pf.h() - y
        } else {
            0
        },
    decreases pf.h() - y,
{
    if y < pf.h() {
        lemma_col_height_keep(pf, x, y + 1, pf.h());
    }
}

proof fn lemma_col_height_keep(pf: &Playfield, x: int, k: int, n: int)
    requires
        1 <= k <= n,
        col_height(pf, x, k) > 0,
    ensures
        col_height(pf, x, n) == col_height(pf, x, k),
    decreases n - k,
{
    if k < n {
        lemma_col_height_keep(pf, x, k, n - 1);
    }
}

/// The greatest height of a set block.
pub fn get_pf_max_height(pf: &Playfield) -> (r: i32)
    requires
        pf.wf(),
    ensures
        r == max_height_upto(pf, pf.w()),
{
    proof {
        pf.lemma_wf();
    }
    let w = pf.width() as i32;
    let h = pf.height() as i32;
    let mut max_height: i32 = 0;
    let mut x: i32 = 0;
    while x < w
        invariant
            pf.wf(),
            w == pf.w(),
            h == pf.h(),
            0 <= pf.w() <= i32::MAX,
            0 <= pf.h() <= i32::MAX,
            0 <= x <= w,
            max_height == max_height_upto(pf, x as int),
            0 <= max_height <= pf.h(),
        decreases w - x,
    {
        let ghost m0: int = max_height as int;
        let mut y: i32 = 0;
        while y < h
            invariant
                pf.wf(),
                h == pf.h(),
                0 <= y <= h,
                0 <= x < w,
                w == pf.w(),
                0 <= m0 <= pf.h(),
                max_height == if col_height(pf, x as int, y as int) > m0 {
                    col_height(pf, x as int, y as int)
                } else {
                    m0
                },
                0 <= col_height(pf, x as int, y as int) <= pf.h(),
                col_height(pf, x as int, y as int) > 0 ==> col_height(pf, x as int, y as int) >= pf.h() - y + 1,
            decreases h - y,
        {
            let height = h - y;
            if pf.block_is_set(Position::new(x, y)) && height > max_height {
                max_height = height;
            }
            y = y + 1;
        }
        x = x + 1;
    }
    max_height
}


/// The largest width (`wide`) or height of the first `k` faces.
pub open spec fn face_extent(fig: Figure, k: int, wide: bool) -> int
    decreases k,
{
    if k <= 0 {
        0
    } else {
        let m = face_extent(fig, k - 1, wide);
        let f = fig.faces_spec()[k - 1];
        let e = if wide {
            f.width()
        } else {
            f.height()
        };
        if e > m {
            e
        } else {
            m
        }
    }
}

/// The largest width (`wide`) or height of the faces of the first `k`
/// figures.
pub open spec fn figures_extent(figs: Seq<Figure>, k: int, wide: bool) -> int
    decreases k,
{
    if k <= 0 {
        0
    } else {
        let m = figures_extent(figs, k - 1, wide);
        let e = face_extent(figs[k - 1], figs[k - 1].num_faces(), wide);
        if e > m {
            e
        } else {
            m
        }
    }
}

proof fn lemma_face_extent_bound(fig: Figure, k: int, wide: bool)
    requires
        fig.wf(),
        0 <= k <= fig.num_faces(),
    ensures
        0 <= face_extent(fig, k, wide) <= i32::MAX,
    decreases k,
{
    if k > 0 {
        lemma_face_extent_bound(fig, k - 1, wide);
        fig.lemma_face_tl(k - 1);
    }
}

proof fn lemma_figures_extent_bound(figs: Seq<Figure>, k: int, wide: bool)
    requires
        0 <= k <= figs.len(),
        forall|i: int| 0 <= i < figs.len() ==> (#[trigger] figs[i]).wf(),
    ensures
        0 <= figures_extent(figs, k, wide) <= i32::MAX,
    decreases k,
{
    if k > 0 {
        lemma_figures_extent_bound(figs, k - 1, wide);
        assert(figs[k - 1].wf());
        lemma_face_extent_bound(figs[k - 1], figs[k - 1].num_faces(), wide);
    }
}

/// The largest width and the largest height of any face of any figure.
pub fn get_max_figure_dimensions(figure_list: &[Figure]) -> (r: (u32, u32))
    requires
        forall|i: int| 0 <= i < figure_list@.len() ==> (#[trigger] figure_list@[i]).wf(),
    ensures
        r.0 == figures_extent(figure_list@, figure_list@.len() as int, true),
        r.1 == figures_extent(figure_list@, figure_list@.len() as int, false),
{
    let mut max_width: u32 = 0;
    let mut max_height: u32 = 0;
    let mut i: usize = 0;
    while i < figure_list.len()
        invariant
            forall|k: int| 0 <= k < figure_list@.len() ==> (#[trigger] figure_list@[k]).wf(),
            0 <= i <= figure_list@.len(),
            max_width == figures_extent(figure_list@, i as int, true),
            max_height == figures_extent(figure_list@, i as int, false),
        decreases figure_list@.len() - i,
    {
        let fig = &figure_list[i];
        assert(fig.wf());
        let faces = fig.faces();
        let ghost mw0 = max_width as int;
        let ghost mh0 = max_height as int;
        let mut fw: u32 = 0;
        let mut fh: u32 = 0;
        let mut j: usize = 0;
        while j < faces.len()
            invariant
                fig.wf(),
                faces@.len() == fig.num_faces(),
                forall|k: int|
                    0 <= k < faces@.len() ==> (#[trigger] faces@[k])@ == fig.faces_spec()[k] && faces@[k].wf(),
                0 <= j <= faces@.len(),
                fw == face_extent(*fig, j as int, true),
                fh == face_extent(*fig, j as int, false),
            decreases faces@.len() - j,
        {
            let face = &faces[j];
            if face.width() > fw {
                fw = face.width();
            }
            if face.height() > fh {
                fh = face.height();
            }
            j = j + 1;
        }
        if fw > max_width {
            max_width = fw;
        }
        if fh > max_height {
            max_height = fh;
        }
        i = i + 1;
    }
    (max_width, max_height)
}

/// The playfield row of the figure's lowest set block.
pub fn lowest_block(fig_pos: &FigurePos) -> (r: i32)
    requires
        fig_pos.wf(),
        i32::MIN <= lowest_row_spec(fig_pos.face_spec()) + fig_pos.pos_spec().y <= i32::MAX,
    ensures
        r == lowest_row_spec(fig_pos.face_spec()) + fig_pos.pos_spec().y,
{
    fig_pos.lowest_block()
}


/// The block at a point once the figure is laid into the playfield.
pub open spec fn laid_block(pf: &Playfield, fig_pos: &FigurePos, x: int, y: int) -> Block {
    let pos = (fig_pos.pos_spec().x as int, fig_pos.pos_spec().y as int);
    if covers(fig_pos.face_spec(), pos, (x, y)) {
        fig_pos.face_spec().at(source(pos, (x, y)))
    } else {
        pf.block(x, y)
    }
}

/// The block at a point of a playfield whose blocks were `b`, once the
/// listed lines are thrown away one after the other.
pub open spec fn thrown_block(b: spec_fn(int, int) -> Block, lines: Seq<u32>, x: int, y: int) -> Block
    decreases lines.len(),
{
    if lines.len() == 0 {
        b(x, y)
    } else {
        let line = lines.last() as int;
        if y > line {
            thrown_block(b, lines.drop_last(), x, y)
        } else if y >= 1 {
            thrown_block(b, lines.drop_last(), x, y - 1)
        } else {
            cleared()
        }
    }
}

/// `placed` is the playfield with the figure laid in, and `thrown` is
/// `placed` once its full lines are thrown away.
pub open spec fn laid_and_thrown(pf: &Playfield, fig_pos: &FigurePos, placed: Playfield, thrown: Playfield) -> bool {
    &&& placed.wf()
    &&& placed.same_frame(pf)
    &&& forall|x: int, y: int| placed.inside(x, y) ==> #[trigger] placed.block(x, y) == laid_block(pf, fig_pos, x, y)
    &&& thrown.wf()
    &&& thrown.same_frame(pf)
    &&& forall|x: int, y: int|
        thrown.inside(x, y) ==> #[trigger] thrown.block(x, y) == thrown_block(
            |a: int, b: int| placed.block(a, b),
            placed.full_rows(),
            x,
            y,
        )
}

/// The score of a placing: the row of the figure's lowest block less the
/// growth of the jitter, column changes counting twice.
pub open spec fn score_of(fig_pos: &FigurePos, thrown: Playfield, pre_col_jitter: int, pre_row_jitter: int) -> int {
    let low = lowest_row_spec(fig_pos.face_spec()) + fig_pos.pos_spec().y;
    let col = col_jitter_upto(&thrown, thrown.w() + 2) - pre_col_jitter;
    let row = row_jitter_upto(&thrown, thrown.h() + 1) - pre_row_jitter;
    low - (col * 2 + row)
}

/// How a placing's score weighs its parts: with the column changes grown
/// by `c` more, the score drops by `2 * c`; with the row changes grown by
/// `c` more, it drops by `c`; and with no growth at all, the score is the
/// row of the figure's lowest block.
pub proof fn law_score_weights(fig_pos: &FigurePos, thrown: Playfield, pre_col_jitter: int, pre_row_jitter: int, c: int)
    ensures
        score_of(fig_pos, thrown, pre_col_jitter - c, pre_row_jitter) == score_of(
            fig_pos,
            thrown,
            pre_col_jitter,
            pre_row_jitter,
        ) - 2 * c,
        score_of(fig_pos, thrown, pre_col_jitter, pre_row_jitter - c) == score_of(
            fig_pos,
            thrown,
            pre_col_jitter,
            pre_row_jitter,
        ) - c,
        score_of(
            fig_pos,
            thrown,
            col_jitter_upto(&thrown, thrown.w() + 2),
            row_jitter_upto(&thrown, thrown.h() + 1),
        ) == lowest_row_spec(fig_pos.face_spec()) + fig_pos.pos_spec().y,
{
}

/// Scores a placing of the figure: the figure is laid into a copy of the
/// playfield, the full lines are thrown away, and the lowest block's row
/// is weighed against how much the jitter grew from the given counts of
/// the playfield before.
pub fn placing_score(fig_pos: &FigurePos, pf: &Playfield, pre_col_jitter: i32, pre_row_jitter: i32) -> (r: i64)
    requires
        pf.wf(),
        fig_pos.wf(),
        fig_pos.fig_spec().fits_at(fig_pos.pos_spec().x as int, fig_pos.pos_spec().y as int),
        pf.w() < i32::MAX,
        pf.h() < i32::MAX,
        i32::MIN <= lowest_row_spec(fig_pos.face_spec()) + fig_pos.pos_spec().y <= i32::MAX,
    ensures
        exists|placed: Playfield, thrown: Playfield|
            #[trigger] laid_and_thrown(pf, fig_pos, placed, thrown) && r == score_of(
                fig_pos,
                thrown,
                pre_col_jitter as int,
                pre_row_jitter as int,
            ) && r == lowest_row_spec(fig_pos.face_spec()) + fig_pos.pos_spec().y - (2 * (col_jitter_upto(
                &thrown,
                thrown.w() + 2,
            ) - pre_col_jitter) + (row_jitter_upto(&thrown, thrown.h() + 1) - pre_row_jitter)),
{
    let mut work = pf.duplicate();
    fig_pos.place(&mut work);
    let ghost placed = work;
    let ghost b = |a: int, c: int| placed.block(a, c);
    let lines = work.locked_lines();
    let mut i: usize = 0;
    while i < lines.len()
        invariant
            placed.wf(),
            placed.same_frame(pf),
            b == (|a: int, c: int| placed.block(a, c)),
            lines@ == placed.full_rows(),
            0 <= i <= lines@.len(),
            work.wf(),
            work.same_frame(pf),
            forall|x: int, y: int|
                work.inside(x, y) ==> #[trigger] work.block(x, y) == thrown_block(b, lines@.take(i as int), x, y),
        decreases lines@.len() - i,
    {
        let ghost before = work;
        proof {
            placed.lemma_wf();
            placed.law_full_rows(placed.h());
            assert(lines@[i as int] < placed.h());
        }
        work.throw_line(lines[i]);
        proof {
            let t = lines@.take(i + 1);
            assert(t.drop_last() =~= lines@.take(i as int));
            assert(t.last() == lines[i as int]);
            assert forall|x: int, y: int| work.inside(x, y) implies #[trigger] work.block(x, y) == thrown_block(
                b,
                t,
                x,
                y,
            ) by {
                assert(work.block(x, y) == before.after_throw(lines[i as int] as int, x, y));
                if y <= lines[i as int] && y >= 1 {
                    assert(before.inside(x, y - 1));
                }
            }
        }
        i = i + 1;
    }
    proof {
        assert(lines@.take(lines@.len() as int) =~= lines@);
        pf.lemma_wf();
    }
    let bottom_block = lowest_block(fig_pos) as i64;
    let col_jitter = get_pf_col_jitter(&work) as i64 - pre_col_jitter as i64;
    let row_jitter = get_pf_row_jitter(&work) as i64 - pre_row_jitter as i64;
    let jitter = col_jitter * 2 + row_jitter;
    let r = bottom_block - jitter;
    proof {
        assert(laid_and_thrown(pf, fig_pos, placed, work));
    }
    r
}

/// The block of a figure's face for an id: clear for zero, else a locked
/// block with that id.
pub open spec fn block_of(id: u8) -> Block {
    if id == 0 {
        Block { id: 0, state: BlockState::NotSet }
    } else {
        Block { id: id, state: BlockState::Locked }
    }
}

fn bl(id: u8) -> (b: Block)
    ensures
        b == block_of(id),
{
    if id == 0 {
        Block::new_not_set()
    } else {
        Block::new_locked(id)
    }
}

/// A figure built from rows of block ids.
fn figure_from(name: &str, rows: &[&[u8]]) -> (f: Figure)
    requires
        rows@.len() >= 1,
        rows@[0]@.len() >= 1,
        forall|y: int| 0 <= y < rows@.len() ==> #[trigger] rows@[y]@.len() == rows@[0]@.len(),
        rows@.len() * rows@[0]@.len() <= i32::MAX,
    ensures
        f.wf(),
        f.name_spec() == name@,
        1 <= f.num_faces() <= 4,
        f.faces_spec() == rotations(f.faces_spec()[0]),
        f.faces_spec()[0].br == (rows@[0]@.len() as int, rows@.len() as int),
        forall|x: int, y: int|
            0 <= y < rows@.len() && 0 <= x < rows@[0]@.len() ==> #[trigger] f.faces_spec()[0].at((x, y))
                == block_of(rows@[y]@[x]),
{
    let w = rows[0].len();
    let mut block_rows: Vec<Vec<Block>> = Vec::new();
    let mut y: usize = 0;
    while y < rows.len()
        invariant
            w == rows@[0]@.len(),
            forall|yy: int| 0 <= yy < rows@.len() ==> #[trigger] rows@[yy]@.len() == w,
            0 <= y <= rows@.len(),
            block_rows@.len() == y,
            forall|yy: int|
                0 <= yy < y ==> (#[trigger] block_rows@[yy])@.len() == w && forall|x: int|
                    0 <= x < w ==> block_rows@[yy]@[x] == block_of(rows@[yy]@[x]),
        decreases rows@.len() - y,
    {
        let row = rows[y];
        assert(row@.len() == w);
        let mut br: Vec<Block> = Vec::new();
        let mut x: usize = 0;
        while x < w
            invariant
                row@.len() == w,
                0 <= x <= w,
                br@.len() == x,
                forall|xx: int|
                    0 <= xx < x ==> #[trigger] br@[xx] == block_of(row@[xx]),
            decreases w - x,
        {
            br.push(bl(row[x]));
            x = x + 1;
        }
        block_rows.push(br);
        y = y + 1;
    }
    let mut slices: Vec<&[Block]> = Vec::new();
    let mut k: usize = 0;
    while k < block_rows.len()
        invariant
            0 <= k <= block_rows@.len(),
            slices@.len() == k,
            forall|yy: int| 0 <= yy < k ==> (#[trigger] slices@[yy])@ == block_rows@[yy]@,
        decreases block_rows@.len() - k,
    {
        slices.push(block_rows[k].as_slice());
        k = k + 1;
    }
    let blocks = slices.as_slice();
    assert(blocks@[0]@ == block_rows@[0]@);
    let f = Figure::new_from_face(name, blocks);
    proof {
        f.lemma_face_tl(0);
        assert forall|x: int, y: int|
            0 <= y < rows@.len() && 0 <= x < rows@[0]@.len() implies #[trigger] f.faces_spec()[0].at((x, y))
                == block_of(rows@[y]@[x]) by {
            assert(blocks@[y]@ == block_rows@[y]@);
        }
    }
    f
}

//
// Build list of figures
//
/// The rows of block ids of the first face of each figure of the game.
pub open spec fn figure_rows(i: int) -> Seq<Seq<u8>> {
    if i == 0 {
        seq![seq![0u8, 0, 0], seq![1u8, 1, 1], seq![0u8, 1, 0]]
    } else if i == 1 {
        seq![seq![0u8, 0, 0], seq![2u8, 2, 2], seq![0u8, 0, 2]]
    } else if i == 2 {
        seq![seq![0u8, 0, 3], seq![3u8, 3, 3], seq![0u8, 0, 0]]
    } else if i == 3 {
        seq![seq![4u8, 4], seq![4u8, 4]]
    } else if i == 4 {
        seq![seq![0u8, 5, 5], seq![5u8, 5, 0]]
    } else if i == 5 {
        seq![seq![6u8, 6, 0], seq![0u8, 6, 6]]
    } else {
        seq![seq![0u8, 7, 0], seq![0u8, 7, 0], seq![0u8, 7, 0], seq![0u8, 7, 0]]
    }
}

/// A face laid out as the rows of block ids say.
pub open spec fn face_as(c: Cells<Block>, rows: Seq<Seq<u8>>) -> bool {
    &&& c.br == (rows[0].len() as int, rows.len() as int)
    &&& forall|x: int, y: int|
        0 <= y < rows.len() && 0 <= x < rows[0].len() ==> #[trigger] c.at((x, y)) == block_of(rows[y][x])
}

/// The seven figures of the game, named "1" to "7", each with the quarter
/// turns of its first face.
pub fn init_figures() -> (r: Vec<Figure>)
    ensures
        r@.len() == 7,
        forall|i: int|
            0 <= i < 7 ==> (#[trigger] r@[i]).wf() && 1 <= r@[i].num_faces() <= 4 && r@[i].faces_spec()
                == rotations(r@[i].faces_spec()[0]) && face_as(r@[i].faces_spec()[0], figure_rows(i))
                && r@[i].name_spec() == seq![('1' as u8 + i) as char],
{
    let mut figure_list: Vec<Figure> = Vec::new();
    figure_list.push(figure_from("1", &[&[0, 0, 0], &[1, 1, 1], &[0, 1, 0]]));
    figure_list.push(figure_from("2", &[&[0, 0, 0], &[2, 2, 2], &[0, 0, 2]]));
    figure_list.push(figure_from("3", &[&[0, 0, 3], &[3, 3, 3], &[0, 0, 0]]));
    figure_list.push(figure_from("4", &[&[4, 4], &[4, 4]]));
    figure_list.push(figure_from("5", &[&[0, 5, 5], &[5, 5, 0]]));
    figure_list.push(figure_from("6", &[&[6, 6, 0], &[0, 6, 6]]));
    figure_list.push(figure_from("7", &[&[0, 7, 0], &[0, 7, 0], &[0, 7, 0], &[0, 7, 0]]));
    proof {
        reveal_strlit("1");
        reveal_strlit("2");
        reveal_strlit("3");
        reveal_strlit("4");
        reveal_strlit("5");
        reveal_strlit("6");
        reveal_strlit("7");
    }
    return figure_list;
}

} // verus!
