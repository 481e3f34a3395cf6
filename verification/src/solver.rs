//! The Nonogram grid and its constraint solver.
//!
//! `check_suggestion` decides whether one concrete placement of a clue's runs
//! is consistent with a partially known line.  `suggest` enumerates every
//! admissible placement, counts for each cell how many valid placements fill
//! it, and commits the cells that every valid placement fills (or that none
//! does).  `suggest_row` and `suggest_col` apply this to one line of the
//! grid, and `solve` drains two work queues of pending lines, feeding each
//! newly decided cell's crossing line back into the queues, until a fixed
//! point is reached.

use crate::comps::{all_compositions, is_composition};
use crate::laws::lemma_resolved_line_stable;
use crate::model::{
    clue_ok, covers, covers_upto, forced_empty, forced_filled, in_run, is_shift_vec, line_resolved,
    line_slack, line_solvable, placement_ok, resolved_cell, run_start, seq_sum, sum_prefix,
    valid_placement, valid_placements, committed_upto, decided_upto, lemma_committed_len,
    lemma_committed_upto_agree, lemma_committed_upto_contains, lemma_committed_upto_props,
    lemma_decided_upto_bounds, lemma_decided_upto_single_change, lemma_run_in_bounds,
    lemma_runs_disjoint, lemma_sum_prefix_mono, lemma_sum_prefix_nonneg,
};
use vstd::pervasive::VecAdditionalExecFns;
use vstd::prelude::*;

verus! {

/// Why a solve cannot proceed.
#[derive(Clone, Copy, Debug, PartialEq, Eq, Structural)]
pub enum SolveError {
    /// A clue holds a zero-length run.
    MalformedClue,
    /// A clue's runs cannot fit in their line even with no extra gaps.
    InfeasibleClue,
    /// A line admits no placement consistent with its known cells.
    Contradiction,
}

/// Among the first `j` candidate shift vectors of `cs`, every one that is a
/// valid placement for the line covers cell `p`.
pub open spec fn all_valid_cover(
    cs: Seq<Seq<usize>>,
    line: Seq<Option<bool>>,
    clue: Seq<usize>,
    j: int,
    p: int,
) -> bool {
    forall|jj: int|
        0 <= jj < j && #[trigger] valid_placement(line, clue, cs[jj]) ==> covers(clue, cs[jj], p)
}

/// Among the first `j` candidate shift vectors of `cs`, no valid placement
/// covers cell `p`.
pub open spec fn no_valid_cover(
    cs: Seq<Seq<usize>>,
    line: Seq<Option<bool>>,
    clue: Seq<usize>,
    j: int,
    p: int,
) -> bool {
    forall|jj: int|
        0 <= jj < j && #[trigger] valid_placement(line, clue, cs[jj]) ==> !covers(clue, cs[jj], p)
}

/// Some of the first `j` candidate shift vectors of `cs` is a valid
/// placement for the line.
pub open spec fn some_valid(
    cs: Seq<Seq<usize>>,
    line: Seq<Option<bool>>,
    clue: Seq<usize>,
    j: int,
) -> bool {
    exists|jj: int| 0 <= jj < j && #[trigger] valid_placement(line, clue, cs[jj])
}

/// `x` occurs in the work queue `q`.
pub open spec fn in_queue(q: Seq<usize>, x: int) -> bool {
    exists|t: int| 0 <= t < q.len() && q[t] == x
}

/// Column `c` is consistent and cannot be narrowed further by single-line
/// reasoning: it admits a valid placement, and resolving it again commits
/// nothing.
pub open spec fn col_stable(g: Nonogram, c: int) -> bool {
    &&& line_solvable(g.col_seq(c), g.input_cols@[c]@)
    &&& line_resolved(g.col_seq(c), g.col_seq(c), g.input_cols@[c]@)
}

/// Row `r` is consistent and cannot be narrowed further by single-line
/// reasoning.
pub open spec fn row_stable(g: Nonogram, r: int) -> bool {
    &&& line_solvable(g.row_seq(r), g.input_rows@[r]@)
    &&& line_resolved(g.row_seq(r), g.row_seq(r), g.input_rows@[r]@)
}

/// Number of still-unknown cells in a line.
pub open spec fn line_undecided(l: Seq<Option<bool>>) -> int {
    l.len() - decided_upto(l, l.len() as int)
}

/// Number of still-unknown cells in the first `c` columns of the grid.
pub open spec fn grid_undecided_upto(g: Nonogram, c: int) -> int
    decreases c,
{
    if c <= 0 {
        0
    } else {
        grid_undecided_upto(g, c - 1) + line_undecided(g.col_seq(c - 1))
    }
}

/// Number of still-unknown cells in the whole grid: the scheduler's
/// termination measure shrinks with every newly decided cell.
pub open spec fn grid_undecided(g: Nonogram) -> int {
    grid_undecided_upto(g, g.width as int)
}

/// The scheduler's step bound: `solve`'s queue-draining loop starts with the
/// measure `2 * grid_undecided + width + height` (its `decreases` clause plus
/// the seeded queues) and shrinks it by at least one every iteration, so with
/// the unknown cells bounded by `width * height` the loop runs at most
/// `2 * width * height + width + height` iterations: linear in the number of
/// cells.  `solve` carries a ghost step counter checked against exactly this
/// bound.
pub proof fn lemma_scheduler_measure_bound(g: Nonogram)
    requires
        g.wf(),
    ensures
        0 <= grid_undecided(g),
        grid_undecided(g) <= g.width * g.height,
{
    lemma_grid_undecided_nonneg(g, g.width as int);
    lemma_grid_undecided_upper(g, g.width as int);
}

/// A prefix of columns holds at most one unknown cell per grid cell.
proof fn lemma_grid_undecided_upper(g: Nonogram, c: int)
    requires
        0 <= c,
        forall|c2: int| 0 <= c2 < c ==> (#[trigger] g.col_seq(c2)).len() == g.height,
    ensures
        grid_undecided_upto(g, c) <= c * g.height,
    decreases c,
{
    if c > 0 {
        lemma_grid_undecided_upper(g, c - 1);
        lemma_decided_upto_bounds(g.col_seq(c - 1), g.col_seq(c - 1).len() as int);
        assert((c - 1) * (g.height as int) + g.height as int == c * (g.height as int))
            by (nonlinear_arith);
    }
}

/// The grid's unknown-cell count is non-negative.
proof fn lemma_grid_undecided_nonneg(g: Nonogram, c: int)
    ensures
        grid_undecided_upto(g, c) >= 0,
    decreases c,
{
    if c > 0 {
        lemma_grid_undecided_nonneg(g, c - 1);
        lemma_decided_upto_bounds(g.col_seq(c - 1), g.col_seq(c - 1).len() as int);
    }
}

/// Replacing one column moves the grid's unknown-cell count by that column's
/// own change.
proof fn lemma_grid_undecided_col_change(g1: Nonogram, g2: Nonogram, ci: int, c: int)
    requires
        forall|c2: int| 0 <= c2 < c && c2 != ci ==> g1.col_seq(c2) == g2.col_seq(c2),
    ensures
        grid_undecided_upto(g2, c) - grid_undecided_upto(g1, c) == if 0 <= ci < c {
            line_undecided(g2.col_seq(ci)) - line_undecided(g1.col_seq(ci))
        } else {
            0int
        },
    decreases c,
{
    if c > 0 {
        lemma_grid_undecided_col_change(g1, g2, ci, c - 1);
    }
}

/// Resolving one row moves the grid's unknown-cell count by the change of the
/// row's own decided count.
proof fn lemma_grid_undecided_row_change(g1: Nonogram, g2: Nonogram, ri: int, c: int)
    requires
        0 <= ri,
        forall|c2: int| 0 <= c2 < c ==> g1.col_seq(c2).len() == g2.col_seq(c2).len(),
        forall|c2: int| 0 <= c2 < c ==> ri < g1.col_seq(c2).len(),
        forall|c2: int, rr: int|
            0 <= c2 < c && 0 <= rr < g1.col_seq(c2).len() && rr != ri
                ==> g1.col_seq(c2)[rr] == g2.col_seq(c2)[rr],
    ensures
        grid_undecided_upto(g2, c) - grid_undecided_upto(g1, c) == decided_upto(
            Seq::new(c as nat, |c2: int| g1.matrix@[c2]@[ri]),
            c,
        ) - decided_upto(Seq::new(c as nat, |c2: int| g2.matrix@[c2]@[ri]), c),
    decreases c,
{
    let r1 = Seq::new(c as nat, |c2: int| g1.matrix@[c2]@[ri]);
    let r2 = Seq::new(c as nat, |c2: int| g2.matrix@[c2]@[ri]);
    if c > 0 {
        lemma_grid_undecided_row_change(g1, g2, ri, c - 1);
        let s1 = Seq::new((c - 1) as nat, |c2: int| g1.matrix@[c2]@[ri]);
        let s2 = Seq::new((c - 1) as nat, |c2: int| g2.matrix@[c2]@[ri]);
        lemma_decided_upto_single_change(
            g1.col_seq(c - 1),
            g2.col_seq(c - 1),
            g1.col_seq(c - 1).len() as int,
            ri,
        );
        lemma_decided_upto_agree(r1, s1, c - 1);
        lemma_decided_upto_agree(r2, s2, c - 1);
        assert(decided_upto(r1, c) == decided_upto(r1, c - 1) + (if r1[c - 1] is Some {
            1int
        } else {
            0int
        }));
        assert(decided_upto(r2, c) == decided_upto(r2, c - 1) + (if r2[c - 1] is Some {
            1int
        } else {
            0int
        }));
    }
}

/// The decided count reads only the cells below the prefix bound.
proof fn lemma_decided_upto_agree(a: Seq<Option<bool>>, b: Seq<Option<bool>>, n: int)
    requires
        forall|q: int| 0 <= q < n ==> #[trigger] a[q] == b[q],
    ensures
        decided_upto(a, n) == decided_upto(b, n),
    decreases n,
{
    if n > 0 {
        lemma_decided_upto_agree(a, b, n - 1);
    }
}

/// One scheduler step on a column: popping column `ci` and resolving it
/// keeps every line either pending or stable, touches no decided cell, and
/// trades each newly decided cell for exactly one new queue entry.  This is
/// the step-over-step accounting of the scheduler: every enqueue beyond the
/// seed entries is paid for by one cell's unknown-to-decided transition,
/// which can happen at most once per cell, so the measure
/// `2 * grid_undecided + queued lines` strictly falls each step (by
/// `1 + newly decided cells`) and bounds the whole drain linearly in the
/// grid's cell count (`lemma_scheduler_measure_bound`).
pub proof fn lemma_col_step(
    pre: Nonogram,
    post: Nonogram,
    ci: int,
    qc0: Seq<usize>,
    qc1: Seq<usize>,
    qr1: Seq<usize>,
    qrn: Seq<usize>,
    w: int,
    h: int,
)
    requires
        pre.wf(),
        post.wf(),
        w == pre.width as int,
        h == pre.height as int,
        post.width == pre.width,
        post.height == pre.height,
        post.input_cols == pre.input_cols,
        post.input_rows == pre.input_rows,
        0 <= ci < w,
        qc0.len() > 0,
        qc0[qc0.len() - 1] == ci,
        qc1 == qc0.subrange(0, qc0.len() - 1),
        forall|t: int| 0 <= t < qc0.len() ==> #[trigger] qc0[t] < w,
        forall|t: int| 0 <= t < qr1.len() ==> #[trigger] qr1[t] < h,
        line_solvable(pre.col_seq(ci), pre.input_cols@[ci]@),
        line_resolved(pre.col_seq(ci), post.col_seq(ci), pre.input_cols@[ci]@),
        forall|c: int| 0 <= c < w && c != ci ==> post.matrix@[c] == pre.matrix@[c],
        qrn == qr1 + committed_upto(pre.col_seq(ci), post.col_seq(ci), h),
        forall|c: int| 0 <= c < w ==> in_queue(qc0, c) || #[trigger] col_stable(pre, c),
        forall|rr: int| 0 <= rr < h ==> in_queue(qr1, rr) || #[trigger] row_stable(pre, rr),
    ensures
        forall|t: int| 0 <= t < qc1.len() ==> #[trigger] qc1[t] < w,
        forall|t: int| 0 <= t < qrn.len() ==> #[trigger] qrn[t] < h,
        forall|c: int| 0 <= c < w ==> in_queue(qc1, c) || #[trigger] col_stable(post, c),
        forall|rr: int| 0 <= rr < h ==> in_queue(qrn, rr) || #[trigger] row_stable(post, rr),
        forall|c: int, rr: int|
            0 <= c < w && 0 <= rr < h && (#[trigger] pre.matrix@[c]@[rr]) is Some
                ==> post.matrix@[c]@[rr] == pre.matrix@[c]@[rr],
        qrn.len() >= qr1.len(),
        grid_undecided(post) == grid_undecided(pre) - (qrn.len() - qr1.len()),
{
    let clue = pre.input_cols@[ci]@;
    let com = committed_upto(pre.col_seq(ci), post.col_seq(ci), h);
    lemma_resolved_line_stable(pre.col_seq(ci), post.col_seq(ci), clue);
    lemma_committed_upto_props(pre.col_seq(ci), post.col_seq(ci), h);
    assert forall|t: int| 0 <= t < qrn.len() implies #[trigger] qrn[t] < h by {
        if t >= qr1.len() {
            assert(committed_upto(pre.col_seq(ci), post.col_seq(ci), h)[t - qr1.len()] < h);
        }
    }
    assert(col_stable(post, ci));
    assert forall|c: int|
        0 <= c < w implies in_queue(qc1, c) || #[trigger] col_stable(post, c) by {
        if c != ci {
            if in_queue(qc0, c) {
                let t = choose|t: int| 0 <= t < qc0.len() && qc0[t] == c;
                assert(qc1[t] == c);
                assert(in_queue(qc1, c));
            } else {
                assert(col_stable(pre, c));
                assert(post.matrix@[c] == pre.matrix@[c]);
            }
        }
    }
    assert forall|rr: int|
        0 <= rr < h implies in_queue(qrn, rr) || #[trigger] row_stable(post, rr) by {
        if pre.col_seq(ci)[rr] is None && post.col_seq(ci)[rr] is Some {
            lemma_committed_upto_contains(pre.col_seq(ci), post.col_seq(ci), h, rr);
            let t = choose|t: int|
                0 <= t < committed_upto(pre.col_seq(ci), post.col_seq(ci), h).len()
                    && #[trigger] committed_upto(pre.col_seq(ci), post.col_seq(ci), h)[t] == rr;
            assert(qrn[qr1.len() + t] == rr);
            assert(in_queue(qrn, rr));
        } else {
            assert(post.col_seq(ci)[rr] == resolved_cell(pre.col_seq(ci), clue, rr));
            assert(post.col_seq(ci)[rr] == pre.col_seq(ci)[rr]);
            assert(post.row_seq(rr) =~= pre.row_seq(rr));
            if in_queue(qr1, rr) {
                let t = choose|t: int| 0 <= t < qr1.len() && qr1[t] == rr;
                assert(qrn[t] == rr);
                assert(in_queue(qrn, rr));
            } else {
                assert(row_stable(pre, rr));
                assert(row_stable(post, rr));
            }
        }
    }
    assert forall|c: int, rr: int|
        0 <= c < w && 0 <= rr < h && (#[trigger] pre.matrix@[c]@[rr]) is Some implies post
        .matrix@[c]@[rr] == pre.matrix@[c]@[rr] by {
        if c == ci {
            assert(post.col_seq(ci)[rr] == resolved_cell(pre.col_seq(ci), clue, rr));
        } else {
            assert(post.matrix@[c] == pre.matrix@[c]);
        }
    }
    assert forall|rr: int|
        0 <= rr < h implies ((#[trigger] pre.col_seq(ci)[rr]) is Some ==> post.col_seq(
        ci,
    )[rr] is Some) by {
        assert(post.col_seq(ci)[rr] == resolved_cell(pre.col_seq(ci), clue, rr));
    }
    lemma_committed_len(pre.col_seq(ci), post.col_seq(ci), h);
    assert forall|c2: int|
        0 <= c2 < w && c2 != ci implies pre.col_seq(c2) == post.col_seq(c2) by {
        assert(post.matrix@[c2] == pre.matrix@[c2]);
    }
    lemma_grid_undecided_col_change(pre, post, ci, w);
    assert(pre.col_seq(ci).len() == h);
    assert(post.col_seq(ci).len() == h);
    assert(qrn.len() == qr1.len() + com.len());
}

/// One scheduler step on a row, symmetric to `lemma_col_step`: the measure
/// `2 * grid_undecided + queued lines` falls by `1 + newly decided cells`.
pub proof fn lemma_row_step(
    pre: Nonogram,
    post: Nonogram,
    ri: int,
    qr0: Seq<usize>,
    qr1: Seq<usize>,
    qc1: Seq<usize>,
    qcn: Seq<usize>,
    w: int,
    h: int,
)
    requires
        pre.wf(),
        post.wf(),
        w == pre.width as int,
        h == pre.height as int,
        post.width == pre.width,
        post.height == pre.height,
        post.input_cols == pre.input_cols,
        post.input_rows == pre.input_rows,
        0 <= ri < h,
        qr0.len() > 0,
        qr0[qr0.len() - 1] == ri,
        qr1 == qr0.subrange(0, qr0.len() - 1),
        forall|t: int| 0 <= t < qr0.len() ==> #[trigger] qr0[t] < h,
        forall|t: int| 0 <= t < qc1.len() ==> #[trigger] qc1[t] < w,
        line_solvable(pre.row_seq(ri), pre.input_rows@[ri]@),
        line_resolved(pre.row_seq(ri), post.row_seq(ri), pre.input_rows@[ri]@),
        forall|c: int, rr: int|
            0 <= c < w && 0 <= rr < h && rr != ri ==> post.matrix@[c]@[rr] == pre.matrix@[c]@[rr],
        qcn == qc1 + committed_upto(pre.row_seq(ri), post.row_seq(ri), w),
        forall|rr: int| 0 <= rr < h ==> in_queue(qr0, rr) || #[trigger] row_stable(pre, rr),
        forall|c: int| 0 <= c < w ==> in_queue(qc1, c) || #[trigger] col_stable(pre, c),
    ensures
        forall|t: int| 0 <= t < qr1.len() ==> #[trigger] qr1[t] < h,
        forall|t: int| 0 <= t < qcn.len() ==> #[trigger] qcn[t] < w,
        forall|rr: int| 0 <= rr < h ==> in_queue(qr1, rr) || #[trigger] row_stable(post, rr),
        forall|c: int| 0 <= c < w ==> in_queue(qcn, c) || #[trigger] col_stable(post, c),
        forall|c: int, rr: int|
            0 <= c < w && 0 <= rr < h && (#[trigger] pre.matrix@[c]@[rr]) is Some
                ==> post.matrix@[c]@[rr] == pre.matrix@[c]@[rr],
        qcn.len() >= qc1.len(),
        grid_undecided(post) == grid_undecided(pre) - (qcn.len() - qc1.len()),
{
    let clue = pre.input_rows@[ri]@;
    let com = committed_upto(pre.row_seq(ri), post.row_seq(ri), w);
    lemma_resolved_line_stable(pre.row_seq(ri), post.row_seq(ri), clue);
    lemma_committed_upto_props(pre.row_seq(ri), post.row_seq(ri), w);
    assert forall|t: int| 0 <= t < qcn.len() implies #[trigger] qcn[t] < w by {
        if t >= qc1.len() {
            assert(committed_upto(pre.row_seq(ri), post.row_seq(ri), w)[t - qc1.len()] < w);
        }
    }
    assert(row_stable(post, ri));
    assert forall|rr: int|
        0 <= rr < h implies in_queue(qr1, rr) || #[trigger] row_stable(post, rr) by {
        if rr != ri {
            if in_queue(qr0, rr) {
                let t = choose|t: int| 0 <= t < qr0.len() && qr0[t] == rr;
                assert(qr1[t] == rr);
                assert(in_queue(qr1, rr));
            } else {
                assert(row_stable(pre, rr));
                assert(post.row_seq(rr) =~= pre.row_seq(rr));
            }
        }
    }
    assert forall|c: int|
        0 <= c < w implies in_queue(qcn, c) || #[trigger] col_stable(post, c) by {
        if pre.row_seq(ri)[c] is None && post.row_seq(ri)[c] is Some {
            lemma_committed_upto_contains(pre.row_seq(ri), post.row_seq(ri), w, c);
            let t = choose|t: int|
                0 <= t < committed_upto(pre.row_seq(ri), post.row_seq(ri), w).len()
                    && #[trigger] committed_upto(pre.row_seq(ri), post.row_seq(ri), w)[t] == c;
            assert(qcn[qc1.len() + t] == c);
            assert(in_queue(qcn, c));
        } else {
            assert(post.row_seq(ri)[c] == resolved_cell(pre.row_seq(ri), clue, c));
            assert(post.row_seq(ri)[c] == pre.row_seq(ri)[c]);
            assert(post.matrix@[c]@[ri] == pre.matrix@[c]@[ri]);
            assert(post.col_seq(c) =~= pre.col_seq(c));
            if in_queue(qc1, c) {
                let t = choose|t: int| 0 <= t < qc1.len() && qc1[t] == c;
                assert(qcn[t] == c);
                assert(in_queue(qcn, c));
            } else {
                assert(col_stable(pre, c));
                assert(col_stable(post, c));
            }
        }
    }
    assert forall|c: int, rr: int|
        0 <= c < w && 0 <= rr < h && (#[trigger] pre.matrix@[c]@[rr]) is Some implies post
        .matrix@[c]@[rr] == pre.matrix@[c]@[rr] by {
        if rr == ri {
            assert(post.row_seq(ri)[c] == resolved_cell(pre.row_seq(ri), clue, c));
            assert(pre.row_seq(ri)[c] == pre.matrix@[c]@[rr]);
            assert(post.row_seq(ri)[c] == post.matrix@[c]@[rr]);
        }
    }
    assert forall|c: int|
        0 <= c < w implies ((#[trigger] pre.row_seq(ri)[c]) is Some ==> post.row_seq(
        ri,
    )[c] is Some) by {
        assert(post.row_seq(ri)[c] == resolved_cell(pre.row_seq(ri), clue, c));
    }
    lemma_committed_len(pre.row_seq(ri), post.row_seq(ri), w);
    lemma_grid_undecided_row_change(pre, post, ri, w);
    assert(Seq::new(w as nat, |c2: int| pre.matrix@[c2]@[ri]) =~= pre.row_seq(ri));
    assert(Seq::new(w as nat, |c2: int| post.matrix@[c2]@[ri]) =~= post.row_seq(ri));
    assert(qcn.len() == qc1.len() + com.len());
}

/// The puzzle grid: clue lists for all columns and rows, and the tri-state
/// cells, stored column-major (`matrix[c][r]`).
pub struct Nonogram {
    pub width: usize,
    pub height: usize,
    pub input_cols: Vec<Vec<usize>>,
    pub input_rows: Vec<Vec<usize>>,
    pub matrix: Vec<Vec<Option<bool>>>,
}

impl Nonogram {
    /// Structural well-formedness: one clue per column and per row, a full
    /// `width` by `height` cell matrix, and every clue feasible for its line.
    pub open spec fn wf(self) -> bool {
        &&& self.input_cols@.len() == self.width
        &&& self.input_rows@.len() == self.height
        &&& self.matrix@.len() == self.width
        &&& forall|c: int| 0 <= c < self.width ==> (#[trigger] self.matrix@[c])@.len()
            == self.height
        &&& forall|c: int| 0 <= c < self.width ==> clue_ok(
            (#[trigger] self.input_cols@[c])@,
            self.height as int,
        )
        &&& forall|r: int| 0 <= r < self.height ==> clue_ok(
            (#[trigger] self.input_rows@[r])@,
            self.width as int,
        )
    }

    /// The cells of column `c`, top to bottom.
    pub open spec fn col_seq(self, c: int) -> Seq<Option<bool>> {
        self.matrix@[c]@
    }

    /// The cells of row `r`, left to right.
    pub open spec fn row_seq(self, r: int) -> Seq<Option<bool>> {
        Seq::new(self.width as nat, |c: int| self.matrix@[c]@[r])
    }

    /// An empty puzzle: no lines, no cells.
    pub fn new() -> (g: Nonogram)
        ensures
            g.wf(),
            g.width == 0,
            g.height == 0,
    {
        Nonogram {
            width: 0,
            height: 0,
            input_cols: Vec::new(),
            input_rows: Vec::new(),
            matrix: Vec::new(),
        }
    }

    /// Build a grid from the pre-parsed puzzle numbers: the first record
    /// holds `width` and `height`, the next `width` records are the column
    /// clues and the following `height` records the row clues.  Reading and
    /// tokenizing the textual puzzle source is the presentation layer's job;
    /// the grid itself starts fully unknown.  Fails with `MalformedClue` when
    /// any clue holds a zero-length run, else with `InfeasibleClue` when any
    /// clue cannot fit its line.
    #[verifier::loop_isolation(false)]
    pub fn read_from(numbers: &Vec<Vec<usize>>) -> (r: Result<Nonogram, SolveError>)
        requires
            numbers@.len() >= 1,
            numbers@[0]@.len() >= 2,
            numbers@.len() > numbers@[0]@[0] + numbers@[0]@[1],
        ensures
            ({
                let w = numbers@[0]@[0] as int;
                let h = numbers@[0]@[1] as int;
                match r {
                    Ok(g) => {
                        &&& g.wf()
                        &&& g.width == w
                        &&& g.height == h
                        &&& forall|c: int| 0 <= c < w ==> (#[trigger] g.input_cols@[c])@
                            == numbers@[1 + c]@
                        &&& forall|rr: int| 0 <= rr < h ==> (#[trigger] g.input_rows@[rr])@
                            == numbers@[1 + w + rr]@
                        &&& forall|c: int, rr: int|
                            0 <= c < w && 0 <= rr < h ==> g.matrix@[c]@[rr] is None
                        &&& (forall|c: int| 0 <= c < w ==> clue_ok(
                            (#[trigger] numbers@[1 + c])@,
                            h,
                        ))
                        &&& (forall|rr: int| 0 <= rr < h ==> clue_ok(
                            (#[trigger] numbers@[1 + w + rr])@,
                            w,
                        ))
                    },
                    Err(e) => {
                        let zero = (exists|c: int, i: int|
                            0 <= c < w && 0 <= i < numbers@[1 + c]@.len() && (#[trigger] numbers@[1
                                + c]@[i]) == 0) || (exists|rr: int, i: int|
                            0 <= rr < h && 0 <= i < numbers@[1 + w + rr]@.len() && (
                            #[trigger] numbers@[1 + w + rr]@[i]) == 0);
                        let tight = (exists|c: int|
                            0 <= c < w && line_slack(h, (#[trigger] numbers@[1 + c])@) < 0) || (
                        exists|rr: int|
                            0 <= rr < h && line_slack(w, (#[trigger] numbers@[1 + w + rr])@) < 0);
                        &&& (e == SolveError::MalformedClue <==> zero)
                        &&& (e == SolveError::InfeasibleClue <==> !zero && tight)
                        &&& e != SolveError::Contradiction
                    },
                }
            }),
    {
        let nl = numbers.len();
        let first = &numbers[0];
        let w = first[0];
        let h = first[1];
        let ghost wi = w as int;
        let ghost hi = h as int;
        proof {
            assert(wi == numbers@[0]@[0] && hi == numbers@[0]@[1]);
            assert(1 + wi + hi <= nl <= usize::MAX);
        }
        let mut li: usize = 0;
        while li < w
            invariant
                li <= w,
                forall|c: int, i: int|
                    0 <= c < li && 0 <= i < numbers@[1 + c]@.len() ==> #[trigger] numbers@[1
                        + c]@[i] != 0,
            decreases w - li,
        {
            let clue = &numbers[1 + li];
            if !Self::clue_positive(clue) {
                return Err(SolveError::MalformedClue);
            }
            li += 1;
        }
        let mut li2: usize = 0;
        while li2 < h
            invariant
                li2 <= h,
                forall|rr: int, i: int|
                    0 <= rr < li2 && 0 <= i < numbers@[1 + wi + rr]@.len() ==> #[trigger] numbers@[1
                        + wi + rr]@[i] != 0,
            decreases h - li2,
        {
            let clue = &numbers[1 + w + li2];
            if !Self::clue_positive(clue) {
                return Err(SolveError::MalformedClue);
            }
            li2 += 1;
        }
        let mut li3: usize = 0;
        while li3 < w
            invariant
                li3 <= w,
                forall|c: int| 0 <= c < li3 ==> line_slack(hi, (#[trigger] numbers@[1 + c])@) >= 0,
            decreases w - li3,
        {
            let clue = &numbers[1 + li3];
            if !Self::clue_fits(clue, h) {
                return Err(SolveError::InfeasibleClue);
            }
            li3 += 1;
        }
        let mut li4: usize = 0;
        while li4 < h
            invariant
                li4 <= h,
                forall|rr: int|
                    0 <= rr < li4 ==> line_slack(wi, (#[trigger] numbers@[1 + wi + rr])@) >= 0,
            decreases h - li4,
        {
            let clue = &numbers[1 + w + li4];
            if !Self::clue_fits(clue, w) {
                return Err(SolveError::InfeasibleClue);
            }
            li4 += 1;
        }
        let mut input_cols: Vec<Vec<usize>> = Vec::new();
        let mut c: usize = 0;
        while c < w
            invariant
                c <= w,
                input_cols@.len() == c,
                forall|i: int| 0 <= i < c ==> (#[trigger] input_cols@[i])@ == numbers@[1 + i]@,
            decreases w - c,
        {
            input_cols.push(Self::copy_clue(&numbers[1 + c]));
            c += 1;
        }
        let mut input_rows: Vec<Vec<usize>> = Vec::new();
        let mut rr: usize = 0;
        while rr < h
            invariant
                rr <= h,
                input_rows@.len() == rr,
                forall|i: int| 0 <= i < rr ==> (#[trigger] input_rows@[i])@ == numbers@[1 + wi
                    + i]@,
            decreases h - rr,
        {
            proof {
                assert(1 + wi + rr < numbers@.len() <= usize::MAX);
            }
            input_rows.push(Self::copy_clue(&numbers[1 + w + rr]));
            rr += 1;
        }
        let mut matrix: Vec<Vec<Option<bool>>> = Vec::new();
        let mut c2: usize = 0;
        while c2 < w
            invariant
                c2 <= w,
                matrix@.len() == c2,
                forall|i: int| 0 <= i < c2 ==> (#[trigger] matrix@[i])@ == Seq::new(
                    h as nat,
                    |x: int| None::<bool>,
                ),
            decreases w - c2,
        {
            let col: Vec<Option<bool>> = vec![None; h];
            proof {
                assert(col@ =~= Seq::new(h as nat, |x: int| None::<bool>));
            }
            matrix.push(col);
            c2 += 1;
        }
        let g = Nonogram { width: w, height: h, input_cols, input_rows, matrix };
        Ok(g)
    }

    /// Does the clue hold no zero-length run?
    #[verifier::loop_isolation(false)]
    fn clue_positive(clue: &Vec<usize>) -> (b: bool)
        ensures
            b == forall|i: int| 0 <= i < clue@.len() ==> #[trigger] clue@[i] != 0,
    {
        let mut i: usize = 0;
        while i < clue.len()
            invariant
                i <= clue@.len(),
                forall|t: int| 0 <= t < i ==> #[trigger] clue@[t] != 0,
            decreases clue@.len() - i,
        {
            if clue[i] == 0 {
                return false;
            }
            i += 1;
        }
        true
    }

    /// Do the clue's runs, with one gap between neighbours, fit in a line of
    /// length `len`?
    #[verifier::loop_isolation(false)]
    fn clue_fits(clue: &Vec<usize>, len: usize) -> (b: bool)
        ensures
            b == (line_slack(len as int, clue@) >= 0),
    {
        let k = clue.len();
        let mut total: usize = 0;
        let mut i: usize = 0;
        while i < k
            invariant
                i <= k,
                total == sum_prefix(clue@, i as int),
                total <= len,
            decreases k - i,
        {
            proof {
                assert(sum_prefix(clue@, i as int + 1) == sum_prefix(clue@, i as int)
                    + clue@[i as int]);
            }
            if clue[i] > len - total {
                proof {
                    lemma_sum_prefix_mono(clue@, i as int + 1, k as int);
                }
                return false;
            }
            total = total + clue[i];
            i += 1;
        }
        if k >= 1 && k - 1 > len - total {
            return false;
        }
        true
    }

    /// Copy a clue record.
    #[verifier::loop_isolation(false)]
    fn copy_clue(v: &Vec<usize>) -> (r: Vec<usize>)
        ensures
            r@ == v@,
    {
        let mut r: Vec<usize> = Vec::new();
        let mut i: usize = 0;
        while i < v.len()
            invariant
                i <= v@.len(),
                r@ == v@.take(i as int),
            decreases v@.len() - i,
        {
            r.push(v[i]);
            proof {
                assert(r@ =~= v@.take(i as int + 1));
            }
            i += 1;
        }
        proof {
            assert(v@.take(v@.len() as int) =~= v@);
        }
        r
    }

    /// Does one placement of the clue's runs fit the line as known?  The
    /// placement is given by `shifts`, the extra gap before each run.  It
    /// fits exactly when every cell known filled lies under some run and no
    /// cell under a run is known empty.  A clue is a list of positive run
    /// lengths; under that precondition this is the same as saying that
    /// filling exactly the covered cells reproduces the clue as the line's
    /// run-length encoding (`lemma_placement_ok_iff_rle`).
    #[verifier::loop_isolation(false)]
    pub fn check_suggestion(line: &Vec<Option<bool>>, input: &Vec<usize>, shifts: &Vec<usize>) -> (r:
        bool)
        requires
            forall|i: int| 0 <= i < input@.len() ==> #[trigger] input@[i] >= 1,
            is_shift_vec(shifts@, input@, line@.len() as int),
        ensures
            r == placement_ok(line@, input@, shifts@),
    {
        let n = line.len();
        let k = input.len();
        let mut covered: Vec<bool> = vec![false; n];
        let mut base: usize = 0;
        let mut i: usize = 0;
        while i < k
            invariant
                i <= k,
                base == sum_prefix(shifts@, i as int) + sum_prefix(input@, i as int),
                covered@.len() == n,
                forall|p: int|
                    0 <= p < n ==> covered@[p] == covers_upto(input@, shifts@, i as int, p),
            decreases k - i,
        {
            proof {
                lemma_run_in_bounds(input@, shifts@, n as int, i as int);
                lemma_sum_prefix_nonneg(shifts@, i as int);
                lemma_sum_prefix_nonneg(input@, i as int);
                assert(sum_prefix(shifts@, i as int + 1) == sum_prefix(shifts@, i as int)
                    + shifts@[i as int]);
                assert(sum_prefix(input@, i as int + 1) == sum_prefix(input@, i as int)
                    + input@[i as int]);
            }
            let rs = base + shifts[i] + i;
            let mut jj: usize = 0;
            while jj < input[i]
                invariant
                    jj <= input@[i as int],
                    rs == run_start(input@, shifts@, i as int),
                    covered@.len() == n,
                    forall|p: int|
                        0 <= p < n ==> covered@[p] == (covers_upto(input@, shifts@, i as int, p)
                            || (rs <= p < rs + jj)),
                decreases input@[i as int] - jj,
            {
                covered.set(rs + jj, true);
                jj += 1;
            }
            proof {
                assert forall|p: int| 0 <= p < n implies (covers_upto(
                    input@,
                    shifts@,
                    i as int,
                    p,
                ) || (rs <= p < rs + input@[i as int])) == covers_upto(
                    input@,
                    shifts@,
                    i as int + 1,
                    p,
                ) by {
                    if rs <= p < rs + input@[i as int] {
                        assert(in_run(input@, shifts@, i as int, p));
                    }
                    if covers_upto(input@, shifts@, i as int + 1, p) && !covers_upto(
                        input@,
                        shifts@,
                        i as int,
                        p,
                    ) {
                        assert(in_run(input@, shifts@, i as int, p));
                    }
                }
            }
            base = base + shifts[i] + input[i];
            i += 1;
        }
        let mut p: usize = 0;
        while p < n
            invariant
                p <= n,
                covered@.len() == n,
                forall|q: int| 0 <= q < n ==> covered@[q] == covers(input@, shifts@, q),
                forall|q: int|
                    #![trigger line@[q]]
                    0 <= q < p ==> {
                        &&& (line@[q] == Some(true) ==> covers(input@, shifts@, q))
                        &&& (line@[q] == Some(false) ==> !covers(input@, shifts@, q))
                    },
            decreases n - p,
        {
            let c = line[p];
            let cov = covered[p];
            match c {
                Some(true) => {
                    if !cov {
                        assert(!placement_ok(line@, input@, shifts@));
                        return false;
                    }
                },
                Some(false) => {
                    if cov {
                        assert(!placement_ok(line@, input@, shifts@));
                        return false;
                    }
                },
                None => {},
            }
            p += 1;
        }
        true
    }

    /// Resolve one line: enumerate every admissible placement of `input` in
    /// `line`, count per cell how many valid placements fill it, and commit
    /// every still-unknown cell that all valid placements fill (as filled) or
    /// that none fills (as empty).  The index of each newly decided cell is
    /// appended to `queue`, in increasing order.  Returns the number of valid
    /// placements; fails with `InfeasibleClue` when the clue cannot fit the
    /// line at all, and with `Contradiction` when no placement agrees with
    /// the cells already known.  On failure nothing is changed.  As
    /// everywhere, a clue is a list of positive run lengths.
    #[verifier::loop_isolation(false)]
    pub fn suggest(line: &mut Vec<Option<bool>>, input: &Vec<usize>, queue: &mut Vec<usize>) -> (r:
        Result<usize, SolveError>)
        requires
            forall|i: int| 0 <= i < input@.len() ==> #[trigger] input@[i] >= 1,
        ensures
            final(line)@.len() == old(line)@.len(),
            r is Ok <==> line_slack(old(line)@.len() as int, input@) >= 0 && line_solvable(
                old(line)@,
                input@,
            ),
            match r {
                Ok(count) => {
                    &&& count >= 1
                    &&& valid_placements(old(line)@, input@).finite()
                    &&& count == valid_placements(old(line)@, input@).len()
                    &&& line_resolved(old(line)@, final(line)@, input@)
                    &&& final(queue)@ == old(queue)@ + committed_upto(
                        old(line)@,
                        final(line)@,
                        old(line)@.len() as int,
                    )
                },
                Err(e) => {
                    &&& final(line)@ == old(line)@
                    &&& final(queue)@ == old(queue)@
                    &&& (e == SolveError::InfeasibleClue <==> line_slack(
                        old(line)@.len() as int,
                        input@,
                    ) < 0)
                    &&& (e == SolveError::Contradiction <==> line_slack(
                        old(line)@.len() as int,
                        input@,
                    ) >= 0 && !line_solvable(old(line)@, input@))
                },
            },
    {
        let n = line.len();
        let k = input.len();
        let mut total: usize = 0;
        let mut i: usize = 0;
        let mut over = false;
        while i < k && !over
            invariant
                i <= k,
                !over ==> total == sum_prefix(input@, i as int) && total <= n,
                over ==> seq_sum(input@) > n && k >= 1,
            decreases k - i,
        {
            if input[i] > n - total {
                proof {
                    assert(sum_prefix(input@, i as int + 1) == sum_prefix(input@, i as int)
                        + input@[i as int]);
                    lemma_sum_prefix_mono(input@, i as int + 1, k as int);
                }
                over = true;
            } else {
                total = total + input[i];
                proof {
                    assert(sum_prefix(input@, i as int + 1) == sum_prefix(input@, i as int)
                        + input@[i as int]);
                }
            }
            i += 1;
        }
        if over || (k >= 1 && k - 1 > n - total) {
            return Err(SolveError::InfeasibleClue);
        }
        let slack: usize = if k == 0 {
            0
        } else {
            n - total - (k - 1)
        };
        proof {
            assert forall|s: Seq<usize>|
                is_shift_vec(s, input@, n as int) == is_composition(
                    s,
                    k as int,
                    slack as int,
                ) by {
                if s.len() == k {
                    if k == 0 {
                        assert(seq_sum(s) == 0);
                        assert(seq_sum(input@) == 0);
                    }
                }
            }
        }
        let comps = all_compositions(k, slack);
        let ghost cs = comps@.map_values(|v: Vec<usize>| v@);
        let mut correctness: Vec<usize> = vec![0; n];
        let mut valid_count: usize = 0;
        let ghost mut vset: Set<Seq<usize>> = Set::empty();
        let mut j: usize = 0;
        while j < comps.len()
            invariant
                j <= comps@.len(),
                cs == comps@.map_values(|v: Vec<usize>| v@),
                correctness@.len() == n,
                valid_count <= j,
                line@ == old(line)@,
                queue@ == old(queue)@,
                vset.finite(),
                vset.len() == valid_count,
                forall|s: Seq<usize>|
                    #[trigger] vset.contains(s) <==> exists|jj: int|
                        0 <= jj < j && (#[trigger] cs[jj]) == s && valid_placement(
                            line@,
                            input@,
                            s,
                        ),
                forall|p: int| 0 <= p < n ==> #[trigger] correctness@[p] <= valid_count,
                forall|p: int|
                    0 <= p < n ==> ((#[trigger] correctness@[p] == valid_count) <==> all_valid_cover(
                        cs,
                        line@,
                        input@,
                        j as int,
                        p,
                    )),
                forall|p: int|
                    0 <= p < n ==> ((#[trigger] correctness@[p] == 0) <==> no_valid_cover(
                        cs,
                        line@,
                        input@,
                        j as int,
                        p,
                    )),
                (valid_count > 0) <==> some_valid(cs, line@, input@, j as int),
            decreases comps@.len() - j,
        {
            let cj = &comps[j];
            proof {
                assert(cs[j as int] == cj@);
                assert(is_composition(cj@, k as int, slack as int));
            }
            let ok = Self::check_suggestion(line, input, cj);
            let ghost base = correctness@;
            let ghost vc_old = valid_count;
            let ghost vset0 = vset;
            if ok {
                proof {
                    assert(valid_placement(line@, input@, cj@));
                    assert(!vset.contains(cs[j as int])) by {
                        if vset.contains(cs[j as int]) {
                            let jj = choose|jj: int|
                                0 <= jj < j && (#[trigger] cs[jj]) == cs[j as int]
                                    && valid_placement(line@, input@, cs[j as int]);
                            assert(comps@[jj]@ == comps@[j as int]@);
                        }
                    }
                    vset = vset.insert(cs[j as int]);
                }
                valid_count += 1;
                let mut bb: usize = 0;
                let mut i2: usize = 0;
                while i2 < k
                    invariant
                        i2 <= k,
                        bb == sum_prefix(cj@, i2 as int) + sum_prefix(input@, i2 as int),
                        correctness@.len() == n,
                        forall|p: int|
                            0 <= p < n ==> #[trigger] correctness@[p] == base[p] + (
                            if covers_upto(input@, cj@, i2 as int, p) {
                                1int
                            } else {
                                0int
                            }),
                    decreases k - i2,
                {
                    proof {
                        lemma_run_in_bounds(input@, cj@, n as int, i2 as int);
                        lemma_sum_prefix_nonneg(cj@, i2 as int);
                        lemma_sum_prefix_nonneg(input@, i2 as int);
                        assert(sum_prefix(cj@, i2 as int + 1) == sum_prefix(cj@, i2 as int)
                            + cj@[i2 as int]);
                        assert(sum_prefix(input@, i2 as int + 1) == sum_prefix(input@, i2 as int)
                            + input@[i2 as int]);
                    }
                    let rs = bb + cj[i2] + i2;
                    let mut jj: usize = 0;
                    while jj < input[i2]
                        invariant
                            jj <= input@[i2 as int],
                            rs == run_start(input@, cj@, i2 as int),
                            correctness@.len() == n,
                            forall|p: int|
                                0 <= p < n ==> #[trigger] correctness@[p] == base[p] + (
                                if covers_upto(input@, cj@, i2 as int, p) || (rs <= p < rs + jj) {
                                    1int
                                } else {
                                    0int
                                }),
                        decreases input@[i2 as int] - jj,
                    {
                        let p = rs + jj;
                        proof {
                            assert(in_run(input@, cj@, i2 as int, p as int));
                            assert(!covers_upto(input@, cj@, i2 as int, p as int)) by {
                                if covers_upto(input@, cj@, i2 as int, p as int) {
                                    let iw = choose|iw: int|
                                        0 <= iw < i2 && #[trigger] in_run(
                                            input@,
                                            cj@,
                                            iw,
                                            p as int,
                                        );
                                    lemma_runs_disjoint(input@, cj@, iw, i2 as int, p as int);
                                }
                            }
                            assert(base[p as int] <= vc_old);
                        }
                        let cur = correctness[p];
                        correctness.set(p, cur + 1);
                        jj += 1;
                    }
                    proof {
                        assert(jj == input@[i2 as int]);
                        assert forall|p: int| 0 <= p < n implies #[trigger] correctness@[p]
                            == base[p] + (if covers_upto(input@, cj@, i2 as int + 1, p) {
                            1int
                        } else {
                            0int
                        }) by {
                            assert(correctness@[p] == base[p] + (if covers_upto(
                                input@,
                                cj@,
                                i2 as int,
                                p,
                            ) || (rs <= p < rs + jj) {
                                1int
                            } else {
                                0int
                            }));
                            if rs <= p < rs + input@[i2 as int] {
                                assert(in_run(input@, cj@, i2 as int, p));
                                assert(covers_upto(input@, cj@, i2 as int + 1, p));
                            }
                            if covers_upto(input@, cj@, i2 as int, p) {
                                let iw = choose|iw: int|
                                    0 <= iw < i2 && #[trigger] in_run(input@, cj@, iw, p);
                                assert(covers_upto(input@, cj@, i2 as int + 1, p));
                            }
                            if covers_upto(input@, cj@, i2 as int + 1, p) && !covers_upto(
                                input@,
                                cj@,
                                i2 as int,
                                p,
                            ) && !(rs <= p < rs + input@[i2 as int]) {
                                let iw = choose|iw: int|
                                    0 <= iw < i2 + 1 && #[trigger] in_run(input@, cj@, iw, p);
                                assert(iw == i2);
                                assert(in_run(input@, cj@, i2 as int, p));
                            }
                        }
                    }
                    bb = bb + cj[i2] + input[i2];
                    i2 += 1;
                }
                proof {
                    assert forall|p: int| 0 <= p < n implies #[trigger] correctness@[p] == base[p]
                        + (if covers(input@, cj@, p) {
                        1int
                    } else {
                        0int
                    }) by {}
                }
            } else {
                proof {
                    assert(!valid_placement(line@, input@, cj@));
                }
            }
            proof {
                assert forall|p: int| 0 <= p < n implies ((#[trigger] correctness@[p]
                    == valid_count) <==> all_valid_cover(cs, line@, input@, j as int + 1, p)) by {
                    if valid_placement(line@, input@, cs[j as int]) {
                        assert(all_valid_cover(cs, line@, input@, j as int + 1, p)
                            == (all_valid_cover(cs, line@, input@, j as int, p) && covers(
                            input@,
                            cj@,
                            p,
                        ))) by {
                            if all_valid_cover(cs, line@, input@, j as int, p) && covers(
                                input@,
                                cj@,
                                p,
                            ) {
                                assert forall|jj: int|
                                    0 <= jj < j + 1 && #[trigger] valid_placement(
                                        line@,
                                        input@,
                                        cs[jj],
                                    ) implies covers(input@, cs[jj], p) by {}
                            }
                        }
                    } else {
                        assert(all_valid_cover(cs, line@, input@, j as int + 1, p)
                            == all_valid_cover(cs, line@, input@, j as int, p)) by {
                            if all_valid_cover(cs, line@, input@, j as int, p) {
                                assert forall|jj: int|
                                    0 <= jj < j + 1 && #[trigger] valid_placement(
                                        line@,
                                        input@,
                                        cs[jj],
                                    ) implies covers(input@, cs[jj], p) by {}
                            }
                        }
                    }
                }
                assert forall|p: int| 0 <= p < n implies ((#[trigger] correctness@[p] == 0)
                    <==> no_valid_cover(cs, line@, input@, j as int + 1, p)) by {
                    if valid_placement(line@, input@, cs[j as int]) {
                        assert(no_valid_cover(cs, line@, input@, j as int + 1, p)
                            == (no_valid_cover(cs, line@, input@, j as int, p) && !covers(
                            input@,
                            cj@,
                            p,
                        ))) by {
                            if no_valid_cover(cs, line@, input@, j as int, p) && !covers(
                                input@,
                                cj@,
                                p,
                            ) {
                                assert forall|jj: int|
                                    0 <= jj < j + 1 && #[trigger] valid_placement(
                                        line@,
                                        input@,
                                        cs[jj],
                                    ) implies !covers(input@, cs[jj], p) by {}
                            }
                        }
                    } else {
                        assert(no_valid_cover(cs, line@, input@, j as int + 1, p)
                            == no_valid_cover(cs, line@, input@, j as int, p)) by {
                            if no_valid_cover(cs, line@, input@, j as int, p) {
                                assert forall|jj: int|
                                    0 <= jj < j + 1 && #[trigger] valid_placement(
                                        line@,
                                        input@,
                                        cs[jj],
                                    ) implies !covers(input@, cs[jj], p) by {}
                            }
                        }
                    }
                }
                if valid_count > 0 && !some_valid(cs, line@, input@, j as int) {
                    assert(valid_placement(line@, input@, cs[j as int]));
                    assert(some_valid(cs, line@, input@, j as int + 1));
                }
                assert forall|s: Seq<usize>|
                    #[trigger] vset.contains(s) <==> (exists|jj: int|
                        0 <= jj < j + 1 && (#[trigger] cs[jj]) == s && valid_placement(
                            line@,
                            input@,
                            s,
                        )) by {
                    if vset.contains(s) {
                        if vset0.contains(s) {
                            let jj = choose|jj: int|
                                0 <= jj < j && (#[trigger] cs[jj]) == s && valid_placement(
                                    line@,
                                    input@,
                                    s,
                                );
                            assert(0 <= jj < j + 1 && cs[jj] == s);
                        } else {
                            assert(s == cs[j as int]);
                            assert(0 <= j < j + 1 && cs[j as int] == s);
                        }
                    }
                    if exists|jj: int|
                        0 <= jj < j + 1 && (#[trigger] cs[jj]) == s && valid_placement(
                            line@,
                            input@,
                            s,
                        ) {
                        let jj = choose|jj: int|
                            0 <= jj < j + 1 && (#[trigger] cs[jj]) == s && valid_placement(
                                line@,
                                input@,
                                s,
                            );
                        if jj < j {
                            assert(vset0.contains(s));
                            assert(vset.contains(s));
                        } else {
                            assert(placement_ok(line@, input@, cj@));
                            assert(vset.contains(s));
                        }
                    }
                }
            }
            j += 1;
        }
        if valid_count == 0 {
            proof {
                assert(!line_solvable(line@, input@)) by {
                    if line_solvable(line@, input@) {
                        let s = choose|s: Seq<usize>| #[trigger] valid_placement(line@, input@, s);
                        assert(is_composition(s, k as int, slack as int));
                        let jw = choose|jw: int|
                            0 <= jw < comps@.len() && (#[trigger] comps@[jw]@) == s;
                        assert(valid_placement(line@, input@, cs[jw]));
                        assert(some_valid(cs, line@, input@, cs.len() as int));
                    }
                }
            }
            return Err(SolveError::Contradiction);
        }
        proof {
            assert(line_solvable(line@, input@)) by {
                let jw = choose|jw: int|
                    0 <= jw < cs.len() && #[trigger] valid_placement(line@, input@, cs[jw]);
                assert(valid_placement(line@, input@, cs[jw]));
            }
            assert(valid_placements(line@, input@) =~= vset) by {
                assert forall|s: Seq<usize>|
                    #[trigger] valid_placements(line@, input@).contains(s) implies vset.contains(
                    s,
                ) by {
                    assert(valid_placement(line@, input@, s));
                    assert(is_composition(s, k as int, slack as int));
                    let jw = choose|jw: int|
                        0 <= jw < comps@.len() && (#[trigger] comps@[jw]@) == s;
                    assert(cs[jw] == s);
                }
                assert forall|s: Seq<usize>| #[trigger]
                    vset.contains(s) implies valid_placements(line@, input@).contains(s) by {
                    let jj = choose|jj: int|
                        0 <= jj < comps@.len() && (#[trigger] cs[jj]) == s && valid_placement(
                            line@,
                            input@,
                            s,
                        );
                }
            }
            assert(valid_placements(line@, input@).finite());
            assert(valid_placements(line@, input@).len() == valid_count);
            assert forall|p: int| 0 <= p < n implies ((#[trigger] correctness@[p] == valid_count)
                == forced_filled(line@, input@, p)) by {
                if correctness@[p] == valid_count {
                    assert forall|s: Seq<usize>| #[trigger]
                        valid_placement(line@, input@, s) implies covers(input@, s, p) by {
                        assert(is_composition(s, k as int, slack as int));
                        let jw = choose|jw: int|
                            0 <= jw < comps@.len() && (#[trigger] comps@[jw]@) == s;
                        assert(valid_placement(line@, input@, cs[jw]));
                        assert(covers(input@, cs[jw], p));
                    }
                } else {
                    assert(!all_valid_cover(cs, line@, input@, cs.len() as int, p));
                    let jw = choose|jw: int|
                        0 <= jw < cs.len() && #[trigger] valid_placement(line@, input@, cs[jw])
                            && !covers(input@, cs[jw], p);
                    assert(!forced_filled(line@, input@, p));
                }
            }
            assert forall|p: int| 0 <= p < n implies ((#[trigger] correctness@[p] == 0)
                == forced_empty(line@, input@, p)) by {
                if correctness@[p] == 0 {
                    assert forall|s: Seq<usize>| #[trigger]
                        valid_placement(line@, input@, s) implies !covers(input@, s, p) by {
                        assert(is_composition(s, k as int, slack as int));
                        let jw = choose|jw: int|
                            0 <= jw < comps@.len() && (#[trigger] comps@[jw]@) == s;
                        assert(valid_placement(line@, input@, cs[jw]));
                        assert(!covers(input@, cs[jw], p));
                    }
                } else {
                    assert(!no_valid_cover(cs, line@, input@, cs.len() as int, p));
                    let jw = choose|jw: int|
                        0 <= jw < cs.len() && #[trigger] valid_placement(line@, input@, cs[jw])
                            && covers(input@, cs[jw], p);
                    assert(!forced_empty(line@, input@, p));
                }
            }
        }
        let ghost line0 = line@;
        let mut p: usize = 0;
        while p < n
            invariant
                p <= n,
                line@.len() == n,
                line0 == old(line)@,
                correctness@.len() == n,
                valid_count >= 1,
                forall|q: int| p <= q < n ==> #[trigger] line@[q] == line0[q],
                forall|q: int| 0 <= q < p ==> #[trigger] line@[q] == resolved_cell(
                    line0,
                    input@,
                    q,
                ),
                queue@ == old(queue)@ + committed_upto(line0, line@, p as int),
                forall|q: int|
                    0 <= q < n ==> ((#[trigger] correctness@[q] == valid_count) == forced_filled(
                        line0,
                        input@,
                        q,
                    )),
                forall|q: int|
                    0 <= q < n ==> ((#[trigger] correctness@[q] == 0) == forced_empty(
                        line0,
                        input@,
                        q,
                    )),
            decreases n - p,
        {
            let ghost lpre = line@;
            let ghost qpre = queue@;
            let cur = line[p];
            if cur.is_none() {
                if correctness[p] == 0 {
                    line.set(p, Some(false));
                    queue.push(p);
                } else if correctness[p] == valid_count {
                    line.set(p, Some(true));
                    queue.push(p);
                }
            }
            proof {
                lemma_committed_upto_agree(line0, lpre, line@, p as int);
                if line0[p as int] is None && line@[p as int] is Some {
                    assert(committed_upto(line0, line@, p as int + 1) == committed_upto(
                        line0,
                        line@,
                        p as int,
                    ).push(p));
                    assert(queue@ =~= old(queue)@ + committed_upto(line0, line@, p as int + 1));
                } else {
                    assert(committed_upto(line0, line@, p as int + 1) == committed_upto(
                        line0,
                        line@,
                        p as int,
                    ));
                }
                assert(line@[p as int] == resolved_cell(line0, input@, p as int));
            }
            p += 1;
        }
        Ok(valid_count)
    }

    /// Read one cell (column-major coordinates).
    pub fn get_cell(&self, col: usize, row: usize) -> (c: Option<bool>)
        requires
            col < self.matrix@.len(),
            row < self.matrix@[col as int]@.len(),
        ensures
            c == self.matrix@[col as int]@[row as int],
    {
        let column = &self.matrix[col];
        column[row]
    }

    /// Write one cell, leaving every other cell and all other fields as they
    /// were.
    fn set_cell(&mut self, col: usize, row: usize, v: Option<bool>)
        requires
            col < old(self).matrix@.len(),
            row < old(self).matrix@[col as int]@.len(),
        ensures
            final(self).width == old(self).width,
            final(self).height == old(self).height,
            final(self).input_cols == old(self).input_cols,
            final(self).input_rows == old(self).input_rows,
            final(self).matrix@.len() == old(self).matrix@.len(),
            forall|c: int|
                0 <= c < old(self).matrix@.len() && c != col ==> final(self).matrix@[c] == old(
                    self,
                ).matrix@[c],
            final(self).matrix@[col as int]@ == old(self).matrix@[col as int]@.update(
                row as int,
                v,
            ),
    {
        let ghost m0 = self.matrix@;
        let mut tmp: Vec<Option<bool>> = Vec::new();
        self.matrix.set_and_swap(col, &mut tmp);
        tmp.set(row, v);
        self.matrix.set_and_swap(col, &mut tmp);
        proof {
            assert forall|c: int|
                0 <= c < m0.len() && c != col implies self.matrix@[c] == m0[c] by {}
        }
    }

    /// Resolve one column against its clue.  Newly decided cells' row indices
    /// are appended to `queue_rows` so the crossing rows can be revisited.
    /// Fails with `Contradiction`, changing nothing, when the column admits
    /// no placement; the clue itself is feasible by well-formedness.
    pub fn suggest_col(&mut self, col_id: usize, queue_rows: &mut Vec<usize>) -> (r: Result<
        usize,
        SolveError,
    >)
        requires
            old(self).wf(),
            col_id < old(self).width,
        ensures
            final(self).wf(),
            final(self).width == old(self).width,
            final(self).height == old(self).height,
            final(self).input_cols == old(self).input_cols,
            final(self).input_rows == old(self).input_rows,
            final(self).matrix@.len() == old(self).matrix@.len(),
            forall|c: int|
                0 <= c < old(self).width && c != col_id ==> final(self).matrix@[c] == old(
                    self,
                ).matrix@[c],
            r is Ok <==> line_solvable(
                old(self).col_seq(col_id as int),
                old(self).input_cols@[col_id as int]@,
            ),
            match r {
                Ok(count) => {
                    &&& count >= 1
                    &&& count == valid_placements(
                        old(self).col_seq(col_id as int),
                        old(self).input_cols@[col_id as int]@,
                    ).len()
                    &&& line_resolved(
                        old(self).col_seq(col_id as int),
                        final(self).col_seq(col_id as int),
                        old(self).input_cols@[col_id as int]@,
                    )
                    &&& final(queue_rows)@ == old(queue_rows)@ + committed_upto(
                        old(self).col_seq(col_id as int),
                        final(self).col_seq(col_id as int),
                        old(self).height as int,
                    )
                },
                Err(e) => {
                    &&& e == SolveError::Contradiction
                    &&& (forall|c: int, rr: int|
                        0 <= c < old(self).width && 0 <= rr < old(self).height
                            ==> final(self).matrix@[c]@[rr] == old(self).matrix@[c]@[rr])
                    &&& final(queue_rows)@ == old(queue_rows)@
                },
            },
    {
        let ghost m0 = self.matrix@;
        let mut lcol: Vec<Option<bool>> = Vec::new();
        self.matrix.set_and_swap(col_id, &mut lcol);
        let res = Self::suggest(&mut lcol, &self.input_cols[col_id], queue_rows);
        self.matrix.set_and_swap(col_id, &mut lcol);
        proof {
            assert(self.matrix@ =~= m0.update(col_id as int, self.matrix@[col_id as int]));
            if res is Err {
                assert(self.matrix@[col_id as int]@ == m0[col_id as int]@);
            }
            assert(line_slack(old(self).height as int, old(self).input_cols@[col_id as int]@)
                >= 0);
        }
        res
    }

    /// Resolve one row against its clue.  Newly decided cells' column indices
    /// are appended to `queue_cols` so the crossing columns can be revisited.
    /// Fails with `Contradiction`, changing nothing, when the row admits no
    /// placement; the clue itself is feasible by well-formedness.
    #[verifier::loop_isolation(false)]
    pub fn suggest_row(&mut self, row_id: usize, queue_cols: &mut Vec<usize>) -> (r: Result<
        usize,
        SolveError,
    >)
        requires
            old(self).wf(),
            row_id < old(self).height,
        ensures
            final(self).wf(),
            final(self).width == old(self).width,
            final(self).height == old(self).height,
            final(self).input_cols == old(self).input_cols,
            final(self).input_rows == old(self).input_rows,
            final(self).matrix@.len() == old(self).matrix@.len(),
            forall|c: int, rr: int|
                0 <= c < old(self).width && 0 <= rr < old(self).height && rr != row_id
                    ==> final(self).matrix@[c]@[rr] == old(self).matrix@[c]@[rr],
            r is Ok <==> line_solvable(
                old(self).row_seq(row_id as int),
                old(self).input_rows@[row_id as int]@,
            ),
            match r {
                Ok(count) => {
                    &&& count >= 1
                    &&& count == valid_placements(
                        old(self).row_seq(row_id as int),
                        old(self).input_rows@[row_id as int]@,
                    ).len()
                    &&& line_resolved(
                        old(self).row_seq(row_id as int),
                        final(self).row_seq(row_id as int),
                        old(self).input_rows@[row_id as int]@,
                    )
                    &&& final(queue_cols)@ == old(queue_cols)@ + committed_upto(
                        old(self).row_seq(row_id as int),
                        final(self).row_seq(row_id as int),
                        old(self).width as int,
                    )
                },
                Err(e) => {
                    &&& e == SolveError::Contradiction
                    &&& (forall|c: int, rr: int|
                        0 <= c < old(self).width && 0 <= rr < old(self).height
                            ==> final(self).matrix@[c]@[rr] == old(self).matrix@[c]@[rr])
                    &&& final(queue_cols)@ == old(queue_cols)@
                },
            },
    {
        let w = self.width;
        let mut lrow: Vec<Option<bool>> = Vec::new();
        let mut c: usize = 0;
        while c < w
            invariant
                c <= w,
                lrow@.len() == c,
                forall|i: int| 0 <= i < c ==> #[trigger] lrow@[i] == self.matrix@[i]@[row_id as int],
            decreases w - c,
        {
            let column = &self.matrix[c];
            lrow.push(column[row_id]);
            c += 1;
        }
        proof {
            assert(lrow@ =~= old(self).row_seq(row_id as int));
        }
        let res = Self::suggest(&mut lrow, &self.input_rows[row_id], queue_cols);
        proof {
            assert(line_slack(old(self).width as int, old(self).input_rows@[row_id as int]@) >= 0);
        }
        let mut c2: usize = 0;
        while c2 < w
            invariant
                c2 <= w,
                lrow@.len() == w,
                self.width == old(self).width,
                self.height == old(self).height,
                self.input_cols == old(self).input_cols,
                self.input_rows == old(self).input_rows,
                self.matrix@.len() == old(self).matrix@.len(),
                forall|i: int| 0 <= i < self.matrix@.len() ==> (#[trigger] self.matrix@[i])@.len()
                    == old(self).matrix@[i]@.len(),
                forall|i: int| 0 <= i < c2 ==> #[trigger] self.matrix@[i]@[row_id as int]
                    == lrow@[i],
                forall|i: int, rr: int|
                    0 <= i < self.matrix@.len() && 0 <= rr < self.matrix@[i]@.len() && !(i < c2
                        && rr == row_id) ==> #[trigger] self.matrix@[i]@[rr] == old(
                        self,
                    ).matrix@[i]@[rr],
            decreases w - c2,
        {
            let v = lrow[c2];
            self.set_cell(c2, row_id, v);
            c2 += 1;
        }
        proof {
            assert(final(self).row_seq(row_id as int) =~= lrow@);
            if res is Err {
                assert forall|i: int, rr: int|
                    0 <= i < old(self).width && 0 <= rr < old(self).height implies #[trigger] self
                    .matrix@[i]@[rr] == old(self).matrix@[i]@[rr] by {
                    if rr == row_id {
                        assert(self.matrix@[i]@[rr] == lrow@[i]);
                        assert(lrow@[i] == old(self).row_seq(row_id as int)[i]);
                    }
                }
            }
        }
        res
    }

    /// Drain the work queues: resolve one pending column and one pending row
    /// per step, enqueueing the crossing line of every newly decided cell,
    /// until no line is pending.  On success every line of the grid is
    /// consistent and stable -- no further cell can be decided by single-line
    /// reasoning.  Decided cells are never changed.  The measure
    /// `2 * unknown cells + queued lines` shrinks every step; a ghost step
    /// counter is checked against the resulting bound of
    /// `2 * width * height + width + height` iterations (see
    /// `lemma_scheduler_measure_bound`).  Fails with `Contradiction` as soon
    /// as some line admits no placement; on failure the grid it leaves behind
    /// holds a row or column that no placement of its clue can explain.
    pub fn solve(&mut self) -> (r: Result<(), SolveError>)
        requires
            old(self).wf(),
        ensures
            final(self).wf(),
            final(self).width == old(self).width,
            final(self).height == old(self).height,
            final(self).input_cols == old(self).input_cols,
            final(self).input_rows == old(self).input_rows,
            forall|c: int, rr: int|
                0 <= c < old(self).width && 0 <= rr < old(self).height && (#[trigger] old(
                    self,
                ).matrix@[c]@[rr]) is Some ==> final(self).matrix@[c]@[rr] == old(
                    self,
                ).matrix@[c]@[rr],
            r is Err ==> r == Err::<(), SolveError>(SolveError::Contradiction),
            r is Err ==> ((exists|c: int|
                0 <= c < final(self).width && !line_solvable(
                    #[trigger] final(self).col_seq(c),
                    final(self).input_cols@[c]@,
                )) || (exists|rr: int|
                0 <= rr < final(self).height && !line_solvable(
                    #[trigger] final(self).row_seq(rr),
                    final(self).input_rows@[rr]@,
                ))),
            r is Ok ==> (forall|c: int| 0 <= c < old(self).width ==> col_stable(*final(self), c))
                && (forall|rr: int| 0 <= rr < old(self).height ==> row_stable(*final(self), rr)),
    {
        let w = self.width;
        let h = self.height;
        let mut queue_cols: Vec<usize> = Vec::new();
        let mut queue_rows: Vec<usize> = Vec::new();
        let mut i: usize = 0;
        while i < w
            invariant
                i <= w,
                queue_cols@.len() == i,
                forall|t: int| 0 <= t < i ==> #[trigger] queue_cols@[t] == t,
            decreases w - i,
        {
            queue_cols.push(i);
            i += 1;
        }
        let mut i2: usize = 0;
        while i2 < h
            invariant
                i2 <= h,
                queue_rows@.len() == i2,
                forall|t: int| 0 <= t < i2 ==> #[trigger] queue_rows@[t] == t,
            decreases h - i2,
        {
            queue_rows.push(i2);
            i2 += 1;
        }
        proof {
            assert forall|c: int| 0 <= c < w implies in_queue(queue_cols@, c) by {
                assert(queue_cols@[c] == c);
            }
            assert forall|rr: int| 0 <= rr < h implies in_queue(queue_rows@, rr) by {
                assert(queue_rows@[rr] == rr);
            }
        }
        let ghost g0 = *self;
        let ghost m_init = 2 * grid_undecided(g0) + w + h;
        let ghost mut steps: int = 0;
        while !(queue_cols.is_empty() && queue_rows.is_empty())
            invariant
                self.wf(),
                self.width == old(self).width,
                self.height == old(self).height,
                self.input_cols == old(self).input_cols,
                self.input_rows == old(self).input_rows,
                w == self.width,
                h == self.height,
                forall|t: int| 0 <= t < queue_cols@.len() ==> #[trigger] queue_cols@[t] < w,
                forall|t: int| 0 <= t < queue_rows@.len() ==> #[trigger] queue_rows@[t] < h,
                forall|c: int, rr: int|
                    0 <= c < w && 0 <= rr < h && (#[trigger] old(self).matrix@[c]@[rr]) is Some
                        ==> self.matrix@[c]@[rr] == old(self).matrix@[c]@[rr],
                forall|c: int|
                    0 <= c < w ==> in_queue(queue_cols@, c) || #[trigger] col_stable(*self, c),
                forall|rr: int|
                    0 <= rr < h ==> in_queue(queue_rows@, rr) || #[trigger] row_stable(*self, rr),
                0 <= steps,
                steps + 2 * grid_undecided(*self) + queue_cols@.len() + queue_rows@.len()
                    <= m_init,
            decreases 2 * grid_undecided(*self) + queue_cols@.len() + queue_rows@.len(),
        {
            let ghost pre = *self;
            let ghost qc0 = queue_cols@;
            let ghost qr0 = queue_rows@;
            let ghost m0 = 2 * grid_undecided(pre) + qc0.len() + qr0.len();
            match queue_cols.pop() {
                Some(col) => {
                    let ghost qr1 = queue_rows@;
                    match self.suggest_col(col, &mut queue_rows) {
                        Err(e) => {
                            proof {
                                assert(self.col_seq(col as int) =~= pre.col_seq(col as int));
                                assert(!line_solvable(
                                    self.col_seq(col as int),
                                    self.input_cols@[col as int]@,
                                ));
                            }
                            return Err(e);
                        },
                        Ok(_) => {},
                    }
                    proof {
                        lemma_col_step(
                            pre,
                            *self,
                            col as int,
                            qc0,
                            queue_cols@,
                            qr1,
                            queue_rows@,
                            w as int,
                            h as int,
                        );
                        assert(2 * grid_undecided(*self) + queue_cols@.len() + queue_rows@.len()
                            < m0);
                    }
                },
                None => {
                    proof {
                        assert(qc0.len() == 0);
                        assert(2 * grid_undecided(*self) + queue_cols@.len() + queue_rows@.len()
                            == m0);
                    }
                },
            }
            let ghost pre2 = *self;
            let ghost qr2 = queue_rows@;
            let ghost m1 = 2 * grid_undecided(pre2) + queue_cols@.len() + qr2.len();
            match queue_rows.pop() {
                Some(row) => {
                    let ghost qc3 = queue_cols@;
                    match self.suggest_row(row, &mut queue_cols) {
                        Err(e) => {
                            proof {
                                assert(self.row_seq(row as int) =~= pre2.row_seq(row as int));
                                assert(!line_solvable(
                                    self.row_seq(row as int),
                                    self.input_rows@[row as int]@,
                                ));
                            }
                            return Err(e);
                        },
                        Ok(_) => {},
                    }
                    proof {
                        lemma_row_step(
                            pre2,
                            *self,
                            row as int,
                            qr2,
                            queue_rows@,
                            qc3,
                            queue_cols@,
                            w as int,
                            h as int,
                        );
                        assert(2 * grid_undecided(*self) + queue_cols@.len() + queue_rows@.len()
                            < m1);
                    }
                },
                None => {
                    proof {
                        assert(qr2.len() == 0);
                        assert(2 * grid_undecided(*self) + queue_cols@.len() + queue_rows@.len()
                            == m1);
                    }
                },
            }
            proof {
                lemma_grid_undecided_nonneg(*self, w as int);
                assert(qc0.len() > 0 || qr0.len() > 0);
                if qc0.len() == 0 {
                    assert(m1 == m0);
                    assert(qr2 == qr0);
                }
                assert(2 * grid_undecided(*self) + queue_cols@.len() + queue_rows@.len() < m0);
                steps = steps + 1;
            }
        }
        proof {
            lemma_grid_undecided_nonneg(*self, w as int);
            lemma_scheduler_measure_bound(g0);
            assert(g0.width == w && g0.height == h);
            assert(steps + 2 * grid_undecided(*self) + queue_cols@.len() + queue_rows@.len()
                <= m_init);
            assert(grid_undecided(*self) >= 0);
            assert(steps <= m_init);
            assert(grid_undecided(g0) <= g0.width * g0.height);
            assert(g0.width * g0.height == (w as int) * (h as int));
            assert(steps <= 2 * ((w as int) * (h as int)) + w + h);
        }
        Ok(())
    }
}

} // verus!
