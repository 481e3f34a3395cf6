//! The mathematical model of a single line.
//!
//! A line of length `L` is a `Seq<Option<bool>>`; a clue is a `Seq<usize>` of
//! run lengths.  A placement assigns each run an extra leading gap (a
//! "shift"); run `i` then starts after all earlier runs, their mandatory
//! single separating gaps, and all shifts up to `i`.  A shift vector is
//! admissible when the shifts consume no more than the line's slack, and a
//! placement is valid for a line when every cell known filled is covered by
//! some run and no cell known empty is covered.

use vstd::prelude::*;

verus! {

/// Sum of the first `n` entries of `s`.
pub open spec fn sum_prefix(s: Seq<usize>, n: int) -> int
    decreases n,
{
    if n <= 0 {
        0
    } else {
        sum_prefix(s, n - 1) + s[n - 1]
    }
}

/// Sum of all entries of `s`.
pub open spec fn seq_sum(s: Seq<usize>) -> int {
    sum_prefix(s, s.len() as int)
}

/// The slack of a line: the gap cells left over once the clue's runs and the
/// mandatory single gaps between them are laid out.  Negative slack means the
/// clue cannot fit in the line at all.
pub open spec fn line_slack(len: int, clue: Seq<usize>) -> int {
    len - seq_sum(clue) - clue.len() + 1
}

/// A well-formed clue for a line of length `len`: every run is non-empty and
/// the runs fit.
pub open spec fn clue_ok(clue: Seq<usize>, len: int) -> bool {
    &&& forall|i: int| 0 <= i < clue.len() ==> #[trigger] clue[i] >= 1
    &&& line_slack(len, clue) >= 0
}

/// First cell of run `i` under the shift vector `shifts`: all shifts up to
/// and including `i`, the lengths of the earlier runs, and one separating gap
/// after each earlier run.
pub open spec fn run_start(clue: Seq<usize>, shifts: Seq<usize>, i: int) -> int {
    sum_prefix(shifts, i + 1) + sum_prefix(clue, i) + i
}

/// Cell `p` lies inside run `i`.
pub open spec fn in_run(clue: Seq<usize>, shifts: Seq<usize>, i: int, p: int) -> bool {
    run_start(clue, shifts, i) <= p < run_start(clue, shifts, i) + clue[i]
}

/// Cell `p` is covered by one of the first `r` runs.
pub open spec fn covers_upto(clue: Seq<usize>, shifts: Seq<usize>, r: int, p: int) -> bool {
    exists|i: int| 0 <= i < r && #[trigger] in_run(clue, shifts, i, p)
}

/// Cell `p` is covered by some run of the placement.
pub open spec fn covers(clue: Seq<usize>, shifts: Seq<usize>, p: int) -> bool {
    covers_upto(clue, shifts, clue.len() as int, p)
}

/// An admissible shift vector: one shift per run, spending at most the slack.
pub open spec fn is_shift_vec(shifts: Seq<usize>, clue: Seq<usize>, len: int) -> bool {
    &&& shifts.len() == clue.len()
    &&& seq_sum(shifts) <= line_slack(len, clue)
}

/// The placement is consistent with the cells already known: every cell known
/// filled is covered by a run, and no covered cell is known empty.  For a
/// clue of positive run lengths, laid out in order with a gap between
/// neighbours, this says exactly that filling all covered cells and clearing
/// the rest yields a line whose run-length encoding is the clue
/// (`lemma_placement_ok_iff_rle`).
pub open spec fn placement_ok(line: Seq<Option<bool>>, clue: Seq<usize>, shifts: Seq<usize>) -> bool {
    forall|p: int|
        #![trigger line[p]]
        #![trigger covers(clue, shifts, p)]
        0 <= p < line.len() ==> {
            &&& (line[p] == Some(true) ==> covers(clue, shifts, p))
            &&& (line[p] == Some(false) ==> !covers(clue, shifts, p))
        }
}

/// A valid placement for the line: admissible and consistent.
pub open spec fn valid_placement(line: Seq<Option<bool>>, clue: Seq<usize>, shifts: Seq<usize>) -> bool {
    &&& is_shift_vec(shifts, clue, line.len() as int)
    &&& placement_ok(line, clue, shifts)
}

/// Some valid placement exists for the line as currently known.
pub open spec fn line_solvable(line: Seq<Option<bool>>, clue: Seq<usize>) -> bool {
    exists|s: Seq<usize>| #[trigger] valid_placement(line, clue, s)
}

/// All valid placements for the line, as a set of shift vectors.
pub open spec fn valid_placements(line: Seq<Option<bool>>, clue: Seq<usize>) -> Set<Seq<usize>> {
    Set::new(|s: Seq<usize>| valid_placement(line, clue, s))
}

/// Cell `p` is filled in every valid placement.
pub open spec fn forced_filled(line: Seq<Option<bool>>, clue: Seq<usize>, p: int) -> bool {
    forall|s: Seq<usize>| #[trigger] valid_placement(line, clue, s) ==> covers(clue, s, p)
}

/// Cell `p` is filled in no valid placement.
pub open spec fn forced_empty(line: Seq<Option<bool>>, clue: Seq<usize>, p: int) -> bool {
    forall|s: Seq<usize>| #[trigger] valid_placement(line, clue, s) ==> !covers(clue, s, p)
}

/// The value cell `p` holds after one resolution of the line: known cells are
/// kept, an unknown cell becomes filled when every valid placement covers it,
/// empty when none does, and stays unknown otherwise.
pub open spec fn resolved_cell(line: Seq<Option<bool>>, clue: Seq<usize>, p: int) -> Option<bool> {
    if line[p] is Some {
        line[p]
    } else if forced_filled(line, clue, p) {
        Some(true)
    } else if forced_empty(line, clue, p) {
        Some(false)
    } else {
        None
    }
}

/// `new_l` is the result of resolving `old_l` once against `clue`.
pub open spec fn line_resolved(old_l: Seq<Option<bool>>, new_l: Seq<Option<bool>>, clue: Seq<usize>) -> bool {
    &&& new_l.len() == old_l.len()
    &&& forall|p: int|
        #![trigger new_l[p]]
        #![trigger resolved_cell(old_l, clue, p)]
        0 <= p < old_l.len() ==> new_l[p] == resolved_cell(old_l, clue, p)
}

/// The indices below `n` of the cells that were unknown in `old_l` and are
/// decided in `new_l`, in increasing order.
pub open spec fn committed_upto(old_l: Seq<Option<bool>>, new_l: Seq<Option<bool>>, n: int) -> Seq<usize>
    decreases n,
{
    if n <= 0 {
        Seq::empty()
    } else if old_l[n - 1] is None && new_l[n - 1] is Some {
        committed_upto(old_l, new_l, n - 1).push((n - 1) as usize)
    } else {
        committed_upto(old_l, new_l, n - 1)
    }
}

/// Number of decided (non-unknown) cells among the first `n` of the line.
pub open spec fn decided_upto(line: Seq<Option<bool>>, n: int) -> int
    decreases n,
{
    if n <= 0 {
        0
    } else {
        decided_upto(line, n - 1) + if line[n - 1] is Some { 1int } else { 0int }
    }
}

/// The count of decided cells lies between 0 and the prefix length.
pub proof fn lemma_decided_upto_bounds(line: Seq<Option<bool>>, n: int)
    ensures
        0 <= decided_upto(line, n),
        n >= 0 ==> decided_upto(line, n) <= n,
    decreases n,
{
    if n > 0 {
        lemma_decided_upto_bounds(line, n - 1);
    }
}

/// When no decided cell is lost, the newly reported cells account exactly for
/// the growth of the decided count.
pub proof fn lemma_committed_len(old_l: Seq<Option<bool>>, new_l: Seq<Option<bool>>, n: int)
    requires
        forall|p: int| 0 <= p < n ==> ((#[trigger] old_l[p]) is Some ==> new_l[p] is Some),
    ensures
        committed_upto(old_l, new_l, n).len() == decided_upto(new_l, n) - decided_upto(old_l, n),
    decreases n,
{
    if n > 0 {
        lemma_committed_len(old_l, new_l, n - 1);
    }
}

/// Changing one line cell moves the decided count by that cell's own change.
pub proof fn lemma_decided_upto_single_change(
    l1: Seq<Option<bool>>,
    l2: Seq<Option<bool>>,
    n: int,
    p: int,
)
    requires
        forall|q: int| 0 <= q < n && q != p ==> #[trigger] l1[q] == l2[q],
    ensures
        decided_upto(l2, n) - decided_upto(l1, n) == if 0 <= p < n {
            (if l2[p] is Some {
                1int
            } else {
                0int
            }) - (if l1[p] is Some {
                1int
            } else {
                0int
            })
        } else {
            0int
        },
    decreases n,
{
    if n > 0 {
        lemma_decided_upto_single_change(l1, l2, n - 1, p);
    }
}

/// `committed_upto` reads only the first `n` cells of the new line.
pub proof fn lemma_committed_upto_agree(
    old_l: Seq<Option<bool>>,
    a: Seq<Option<bool>>,
    b: Seq<Option<bool>>,
    n: int,
)
    requires
        forall|i: int| 0 <= i < n ==> a[i] == b[i],
    ensures
        committed_upto(old_l, a, n) == committed_upto(old_l, b, n),
    decreases n,
{
    if n > 0 {
        lemma_committed_upto_agree(old_l, a, b, n - 1);
    }
}

/// Every entry of `committed_upto` is the index of a cell that was unknown
/// and is now decided.
pub proof fn lemma_committed_upto_props(old_l: Seq<Option<bool>>, new_l: Seq<Option<bool>>, n: int)
    requires
        n <= usize::MAX,
    ensures
        forall|t: int|
            0 <= t < committed_upto(old_l, new_l, n).len() ==> {
                &&& 0 <= #[trigger] committed_upto(old_l, new_l, n)[t] < n
                &&& old_l[committed_upto(old_l, new_l, n)[t] as int] is None
                &&& new_l[committed_upto(old_l, new_l, n)[t] as int] is Some
            },
    decreases n,
{
    if n > 0 {
        lemma_committed_upto_props(old_l, new_l, n - 1);
        assert forall|t: int| 0 <= t < committed_upto(old_l, new_l, n).len() implies {
            &&& 0 <= #[trigger] committed_upto(old_l, new_l, n)[t] < n
            &&& old_l[committed_upto(old_l, new_l, n)[t] as int] is None
            &&& new_l[committed_upto(old_l, new_l, n)[t] as int] is Some
        } by {
            let prev = committed_upto(old_l, new_l, n - 1);
            if old_l[n - 1] is None && new_l[n - 1] is Some {
                assert(committed_upto(old_l, new_l, n) == prev.push((n - 1) as usize));
                if t < prev.len() {
                    assert(committed_upto(old_l, new_l, n)[t] == committed_upto(
                        old_l,
                        new_l,
                        n - 1,
                    )[t]);
                    assert(0 <= committed_upto(old_l, new_l, n - 1)[t] < n - 1);
                } else {
                    assert(committed_upto(old_l, new_l, n)[t] == (n - 1) as usize);
                }
            } else {
                assert(committed_upto(old_l, new_l, n) == prev);
                assert(committed_upto(old_l, new_l, n)[t] == committed_upto(
                    old_l,
                    new_l,
                    n - 1,
                )[t]);
                assert(0 <= committed_upto(old_l, new_l, n - 1)[t] < n - 1);
            }
        }
    }
}

/// Conversely, every cell that went from unknown to decided is reported.
pub proof fn lemma_committed_upto_contains(
    old_l: Seq<Option<bool>>,
    new_l: Seq<Option<bool>>,
    n: int,
    p: int,
)
    requires
        0 <= p < n <= usize::MAX,
        old_l[p] is None,
        new_l[p] is Some,
    ensures
        exists|t: int|
            0 <= t < committed_upto(old_l, new_l, n).len() && #[trigger] committed_upto(
                old_l,
                new_l,
                n,
            )[t] == p,
    decreases n,
{
    let cur = committed_upto(old_l, new_l, n);
    let prev = committed_upto(old_l, new_l, n - 1);
    if p == n - 1 {
        assert(cur[cur.len() - 1] == (n - 1) as usize);
    } else {
        lemma_committed_upto_contains(old_l, new_l, n - 1, p);
        let t = choose|t: int|
            0 <= t < prev.len() && #[trigger] committed_upto(old_l, new_l, n - 1)[t] == p;
        assert(cur[t] == p);
    }
}

/// Monotonicity of prefix sums; in particular every prefix sum is between 0
/// and the total.
pub proof fn lemma_sum_prefix_mono(s: Seq<usize>, a: int, b: int)
    requires
        0 <= a <= b,
    ensures
        sum_prefix(s, a) <= sum_prefix(s, b),
    decreases b,
{
    if a < b {
        lemma_sum_prefix_mono(s, a, b - 1);
    }
}

/// Every prefix sum is non-negative.
pub proof fn lemma_sum_prefix_nonneg(s: Seq<usize>, n: int)
    ensures
        sum_prefix(s, n) >= 0,
    decreases n,
{
    if n > 0 {
        lemma_sum_prefix_nonneg(s, n - 1);
    }
}

/// Prefix sums of `seq![f] + t` peel off the head.
pub proof fn lemma_sum_prefix_cons(f: usize, t: Seq<usize>, m: int)
    requires
        0 <= m <= t.len(),
    ensures
        sum_prefix(seq![f] + t, m + 1) == f + sum_prefix(t, m),
    decreases m,
{
    let ct = seq![f] + t;
    if m == 0 {
        assert(sum_prefix(ct, 1) == sum_prefix(ct, 0) + ct[0]);
        assert(ct[0] == f);
    } else {
        lemma_sum_prefix_cons(f, t, m - 1);
        assert(sum_prefix(ct, m + 1) == sum_prefix(ct, m) + ct[m]);
        assert(ct[m] == t[m - 1]);
    }
}

/// Consecutive runs are laid out left to right with at least one gap cell
/// between them.
pub proof fn lemma_run_start_monotone(clue: Seq<usize>, shifts: Seq<usize>, i1: int, i2: int)
    requires
        0 <= i1 < i2,
    ensures
        run_start(clue, shifts, i2) >= run_start(clue, shifts, i1) + clue[i1] + 1,
    decreases i2 - i1,
{
    if i2 == i1 + 1 {
        assert(sum_prefix(shifts, i2 + 1) == sum_prefix(shifts, i2) + shifts[i2]);
        assert(sum_prefix(clue, i2) == sum_prefix(clue, i1) + clue[i1]);
    } else {
        lemma_run_start_monotone(clue, shifts, i1, i2 - 1);
        lemma_run_start_monotone(clue, shifts, i2 - 1, i2);
    }
}

/// A cell lies in at most one run.
pub proof fn lemma_runs_disjoint(clue: Seq<usize>, shifts: Seq<usize>, i1: int, i2: int, p: int)
    requires
        0 <= i1 < i2,
        in_run(clue, shifts, i1, p),
    ensures
        !in_run(clue, shifts, i2, p),
{
    lemma_run_start_monotone(clue, shifts, i1, i2);
}

/// Under an admissible shift vector every run lies inside the line.
pub proof fn lemma_run_in_bounds(clue: Seq<usize>, shifts: Seq<usize>, len: int, i: int)
    requires
        is_shift_vec(shifts, clue, len),
        0 <= i < clue.len(),
    ensures
        0 <= run_start(clue, shifts, i),
        run_start(clue, shifts, i) + clue[i] <= len,
{
    lemma_sum_prefix_nonneg(shifts, i + 1);
    lemma_sum_prefix_nonneg(clue, i);
    lemma_sum_prefix_mono(shifts, i + 1, shifts.len() as int);
    lemma_sum_prefix_mono(clue, i + 1, clue.len() as int);
    assert(sum_prefix(clue, i + 1) == sum_prefix(clue, i) + clue[i]);
}

/// Prefix sums of the tail relate to prefix sums of the whole.
pub proof fn lemma_sum_prefix_drop_first(s: Seq<usize>, m: int)
    requires
        0 <= m < s.len(),
    ensures
        sum_prefix(s.drop_first(), m) == sum_prefix(s, m + 1) - s[0],
    decreases m,
{
    if m == 0 {
        assert(sum_prefix(s, 1) == sum_prefix(s, 0) + s[0]);
    } else {
        lemma_sum_prefix_drop_first(s, m - 1);
        assert(s.drop_first()[m - 1] == s[m]);
        assert(sum_prefix(s, m + 1) == sum_prefix(s, m) + s[m]);
    }
}

} // verus!
