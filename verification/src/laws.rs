//! General laws of line resolution, stated and proved once and for all.

use crate::model::{
    committed_upto, covers, covers_upto, decided_upto, forced_empty, forced_filled, in_run,
    is_shift_vec, line_resolved, line_slack, line_solvable, placement_ok, resolved_cell, run_start,
    seq_sum, sum_prefix, valid_placement, valid_placements, lemma_run_in_bounds,
    lemma_run_start_monotone, lemma_sum_prefix_drop_first, lemma_sum_prefix_nonneg,
};
use vstd::prelude::*;

verus! {

/// Resolving a line never removes nor adds valid placements: a shift vector
/// is valid for the resolved line exactly when it was valid for the line
/// before.  Newly committed cells only record what every valid placement
/// already agreed on.
pub proof fn lemma_resolution_preserves_placements(
    old_l: Seq<Option<bool>>,
    new_l: Seq<Option<bool>>,
    clue: Seq<usize>,
)
    requires
        line_solvable(old_l, clue),
        line_resolved(old_l, new_l, clue),
    ensures
        forall|s: Seq<usize>| #[trigger]
            valid_placement(new_l, clue, s) == valid_placement(old_l, clue, s),
        valid_placements(new_l, clue) == valid_placements(old_l, clue),
{
    assert forall|s: Seq<usize>| #[trigger]
        valid_placement(new_l, clue, s) == valid_placement(old_l, clue, s) by {
        if valid_placement(old_l, clue, s) {
            assert forall|p: int| 0 <= p < new_l.len() implies {
                &&& (new_l[p] == Some(true) ==> covers(clue, s, p))
                &&& (new_l[p] == Some(false) ==> !covers(clue, s, p))
            } by {
                assert(new_l[p] == resolved_cell(old_l, clue, p));
                if old_l[p] is None {
                    if new_l[p] == Some(true) {
                        assert(forced_filled(old_l, clue, p));
                        assert(covers(clue, s, p));
                    }
                    if new_l[p] == Some(false) {
                        assert(forced_empty(old_l, clue, p));
                        assert(!covers(clue, s, p));
                    }
                } else {
                    assert(new_l[p] == old_l[p]);
                }
            }
            assert(placement_ok(new_l, clue, s));
            assert(valid_placement(new_l, clue, s));
        }
        if valid_placement(new_l, clue, s) {
            assert forall|p: int| 0 <= p < old_l.len() implies {
                &&& (old_l[p] == Some(true) ==> covers(clue, s, p))
                &&& (old_l[p] == Some(false) ==> !covers(clue, s, p))
            } by {
                assert(new_l[p] == resolved_cell(old_l, clue, p));
                if old_l[p] is Some {
                    assert(new_l[p] == old_l[p]);
                }
            }
            assert(placement_ok(old_l, clue, s));
            assert(valid_placement(old_l, clue, s));
        }
    }
    assert(valid_placements(new_l, clue) =~= valid_placements(old_l, clue));
}

/// A resolved line is stable: it is still solvable, and resolving it again
/// decides nothing further.  This is the scheduler's fixed-point notion, and
/// also the idempotence of resolution: since the resolved line equals its own
/// resolution, a second pass returns it unchanged.
pub proof fn lemma_resolved_line_stable(
    old_l: Seq<Option<bool>>,
    new_l: Seq<Option<bool>>,
    clue: Seq<usize>,
)
    requires
        line_solvable(old_l, clue),
        line_resolved(old_l, new_l, clue),
    ensures
        line_solvable(new_l, clue),
        line_resolved(new_l, new_l, clue),
{
    lemma_resolution_preserves_placements(old_l, new_l, clue);
    let w = choose|s: Seq<usize>| #[trigger] valid_placement(old_l, clue, s);
    assert(valid_placement(new_l, clue, w));
    assert forall|p: int| 0 <= p < new_l.len() implies #[trigger] new_l[p] == resolved_cell(
        new_l,
        clue,
        p,
    ) by {
        assert(new_l[p] == resolved_cell(old_l, clue, p));
        if new_l[p] is None {
            assert(old_l[p] is None);
            assert(!forced_filled(old_l, clue, p) && !forced_empty(old_l, clue, p));
            if forced_filled(new_l, clue, p) {
                assert forall|s: Seq<usize>| #[trigger]
                    valid_placement(old_l, clue, s) implies covers(clue, s, p) by {
                    assert(valid_placement(new_l, clue, s));
                }
            }
            if forced_empty(new_l, clue, p) {
                assert forall|s: Seq<usize>| #[trigger]
                    valid_placement(old_l, clue, s) implies !covers(clue, s, p) by {
                    assert(valid_placement(new_l, clue, s));
                }
            }
        }
    }
}

/// Resolving a line whose cells are all decided commits nothing: the line
/// comes back unchanged and no index is reported.
pub proof fn lemma_resolve_decided_line(
    old_l: Seq<Option<bool>>,
    new_l: Seq<Option<bool>>,
    clue: Seq<usize>,
)
    requires
        forall|p: int| 0 <= p < old_l.len() ==> (#[trigger] old_l[p]) is Some,
        line_resolved(old_l, new_l, clue),
    ensures
        new_l == old_l,
        committed_upto(old_l, new_l, old_l.len() as int) == Seq::<usize>::empty(),
{
    assert forall|p: int| 0 <= p < old_l.len() implies #[trigger] new_l[p] == old_l[p] by {
        assert(new_l[p] == resolved_cell(old_l, clue, p));
    }
    assert(new_l =~= old_l);
    lemma_committed_none(old_l, new_l, old_l.len() as int);
}

/// `committed_upto` is empty over a stretch with no unknown cells.
proof fn lemma_committed_none(old_l: Seq<Option<bool>>, new_l: Seq<Option<bool>>, n: int)
    requires
        forall|p: int| 0 <= p < n ==> (#[trigger] old_l[p]) is Some,
    ensures
        committed_upto(old_l, new_l, n) == Seq::<usize>::empty(),
    decreases n,
{
    if n > 0 {
        lemma_committed_none(old_l, new_l, n - 1);
    }
}

/// The count of decided cells never drops: any step that keeps every decided
/// cell as it was (as every resolution does) leaves the count the same or
/// larger.
pub proof fn lemma_decided_count_monotone(
    old_l: Seq<Option<bool>>,
    new_l: Seq<Option<bool>>,
    n: int,
)
    requires
        forall|p: int|
            0 <= p < n ==> ((#[trigger] old_l[p]) is Some ==> new_l[p] == old_l[p]),
    ensures
        decided_upto(new_l, n) >= decided_upto(old_l, n),
    decreases n,
{
    if n > 0 {
        lemma_decided_count_monotone(old_l, new_l, n - 1);
    }
}

/// With zero slack there is exactly one admissible shift vector: all zeros.
pub proof fn lemma_zero_slack_unique(clue: Seq<usize>, len: int, s: Seq<usize>)
    requires
        line_slack(len, clue) == 0,
    ensures
        is_shift_vec(s, clue, len) <==> s == Seq::new(clue.len(), |i: int| 0usize),
{
    let zeros = Seq::new(clue.len(), |i: int| 0usize);
    lemma_sum_zero_iff(zeros, zeros.len() as int);
    assert(seq_sum(zeros) == 0);
    if is_shift_vec(s, clue, len) {
        lemma_sum_zero_iff(s, s.len() as int);
        lemma_sum_prefix_nonneg(s, s.len() as int);
        assert(s =~= zeros);
    }
}

/// A sum of naturals is zero exactly when every summand is.
proof fn lemma_sum_zero_iff(s: Seq<usize>, n: int)
    requires
        n <= s.len(),
    ensures
        sum_prefix(s, n) <= 0 ==> forall|i: int| 0 <= i < n ==> s[i] == 0,
        (forall|i: int| 0 <= i < n ==> s[i] == 0) ==> sum_prefix(s, n) == 0,
    decreases n,
{
    if n > 0 {
        lemma_sum_zero_iff(s, n - 1);
        lemma_sum_prefix_nonneg(s, n - 1);
    }
}

/// With zero slack a solvable line is fully forced: every cell is covered by
/// the single placement (hence filled in all valid placements) or by none.
pub proof fn lemma_zero_slack_decides_all(line: Seq<Option<bool>>, clue: Seq<usize>)
    requires
        line_slack(line.len() as int, clue) == 0,
        line_solvable(line, clue),
    ensures
        forall|s: Seq<usize>| #[trigger]
            valid_placement(line, clue, s) <==> s == Seq::new(clue.len(), |i: int| 0usize),
        valid_placements(line, clue).finite(),
        valid_placements(line, clue).len() == 1,
        forall|p: int|
            0 <= p < line.len() ==> forced_filled(line, clue, p) || forced_empty(line, clue, p),
{
    let zeros = Seq::new(clue.len(), |i: int| 0usize);
    let w = choose|s: Seq<usize>| #[trigger] valid_placement(line, clue, s);
    lemma_zero_slack_unique(clue, line.len() as int, w);
    assert(w == zeros);
    assert forall|s: Seq<usize>| #[trigger]
        valid_placement(line, clue, s) <==> s == zeros by {
        if valid_placement(line, clue, s) {
            lemma_zero_slack_unique(clue, line.len() as int, s);
        }
    }
    assert(valid_placements(line, clue) =~= Set::<Seq<usize>>::empty().insert(zeros));
    assert forall|p: int|
        0 <= p < line.len() implies forced_filled(line, clue, p) || forced_empty(
        line,
        clue,
        p,
    ) by {
        if covers(clue, zeros, p) {
            assert forall|s: Seq<usize>| #[trigger]
                valid_placement(line, clue, s) implies covers(clue, s, p) by {}
        } else {
            assert forall|s: Seq<usize>| #[trigger]
                valid_placement(line, clue, s) implies !covers(clue, s, p) by {}
        }
    }
}

/// Run-length encoding of a boolean line, left to right; `cur` is the length
/// of the run open at the current position.
pub open spec fn rle_acc(b: Seq<bool>, cur: int) -> Seq<int>
    decreases b.len(),
{
    if b.len() == 0 {
        if cur > 0 {
            seq![cur]
        } else {
            Seq::empty()
        }
    } else if b[0] {
        rle_acc(b.drop_first(), cur + 1)
    } else if cur > 0 {
        seq![cur] + rle_acc(b.drop_first(), 0)
    } else {
        rle_acc(b.drop_first(), 0)
    }
}

/// The maximal runs of `true` cells, as their lengths in order.
pub open spec fn rle(b: Seq<bool>) -> Seq<int> {
    rle_acc(b, 0)
}

/// The cells a placement fills, as a boolean line.
pub open spec fn pattern(clue: Seq<usize>, shifts: Seq<usize>, len: int) -> Seq<bool> {
    Seq::new(len as nat, |p: int| covers(clue, shifts, p))
}

/// The clue as a sequence of mathematical integers.
pub open spec fn clue_ints(clue: Seq<usize>) -> Seq<int> {
    clue.map_values(|c: usize| c as int)
}

/// A stretch of gap cells leaves the encoding alone when no run is open.
proof fn lemma_rle_acc_false_prefix(a: Seq<bool>, b: Seq<bool>)
    requires
        forall|i: int| 0 <= i < a.len() ==> !(#[trigger] a[i]),
    ensures
        rle_acc(a + b, 0) == rle_acc(b, 0),
    decreases a.len(),
{
    if a.len() > 0 {
        assert((a + b).drop_first() =~= a.drop_first() + b);
        lemma_rle_acc_false_prefix(a.drop_first(), b);
    } else {
        assert(a + b =~= b);
    }
}

/// A stretch of filled cells extends the open run by its length.
proof fn lemma_rle_acc_true_prefix(a: Seq<bool>, b: Seq<bool>, cur: int)
    requires
        forall|i: int| 0 <= i < a.len() ==> #[trigger] a[i],
    ensures
        rle_acc(a + b, cur) == rle_acc(b, cur + a.len()),
    decreases a.len(),
{
    if a.len() > 0 {
        assert((a + b).drop_first() =~= a.drop_first() + b);
        lemma_rle_acc_true_prefix(a.drop_first(), b, cur + 1);
    } else {
        assert(a + b =~= b);
    }
}

/// A line of gap cells closes the open run and adds nothing else.
proof fn lemma_rle_acc_all_false(a: Seq<bool>, cur: int)
    requires
        forall|i: int| 0 <= i < a.len() ==> !(#[trigger] a[i]),
        cur >= 0,
    ensures
        rle_acc(a, cur) == if cur > 0 {
            seq![cur]
        } else {
            Seq::<int>::empty()
        },
    decreases a.len(),
{
    if a.len() > 0 {
        lemma_rle_acc_all_false(a.drop_first(), 0);
        if cur > 0 {
            assert(seq![cur] + rle_acc(a.drop_first(), 0) =~= seq![cur]);
        }
    }
}

/// Dropping the first run of a placement shifts coverage by the run's span.
proof fn lemma_covers_shift(clue: Seq<usize>, shifts: Seq<usize>, p: int)
    requires
        clue.len() >= 1,
        shifts.len() == clue.len(),
        p >= 0,
    ensures
        covers(clue.drop_first(), shifts.drop_first(), p) == covers(
            clue,
            shifts,
            p + shifts[0] + clue[0] + 1,
        ),
{
    let clue2 = clue.drop_first();
    let shifts2 = shifts.drop_first();
    let off = shifts[0] + clue[0] + 1;
    assert forall|i: int| 1 <= i < clue.len() implies run_start(clue2, shifts2, i - 1)
        == run_start(clue, shifts, i) - off by {
        lemma_sum_prefix_drop_first(shifts, i);
        lemma_sum_prefix_drop_first(clue, i - 1);
        assert(sum_prefix(shifts, 2) == sum_prefix(shifts, 1) + shifts[1]);
        assert(sum_prefix(shifts, 0) == 0);
        assert(sum_prefix(clue, 0) == 0);
        assert(sum_prefix(shifts, 1) == shifts[0]);
        assert(sum_prefix(clue, 1) == clue[0]);
    }
    if covers(clue2, shifts2, p) {
        let i = choose|i: int| 0 <= i < clue2.len() && #[trigger] in_run(clue2, shifts2, i, p);
        assert(clue2[i] == clue[i + 1]);
        assert(in_run(clue, shifts, i + 1, p + off));
        assert(covers_upto(clue, shifts, clue.len() as int, p + off));
    }
    if covers(clue, shifts, p + off) {
        let i = choose|i: int| 0 <= i < clue.len() && #[trigger] in_run(clue, shifts, i, p + off);
        if i == 0 {
            assert(sum_prefix(shifts, 0) == 0);
            assert(sum_prefix(clue, 0) == 0);
            assert(sum_prefix(shifts, 1) == sum_prefix(shifts, 0) + shifts[0]);
            assert(run_start(clue, shifts, 0) == shifts[0]);
            assert(p + off < shifts[0] + clue[0]);
            assert(false);
        }
        assert(clue2[i - 1] == clue[i]);
        assert(in_run(clue2, shifts2, i - 1, p));
        assert(covers_upto(clue2, shifts2, clue2.len() as int, p));
    }
}

/// The cells filled by any admissible placement of a clue with positive runs
/// encode back to exactly that clue.
pub proof fn lemma_pattern_rle(clue: Seq<usize>, shifts: Seq<usize>, len: int)
    requires
        is_shift_vec(shifts, clue, len),
        forall|i: int| 0 <= i < clue.len() ==> #[trigger] clue[i] >= 1,
    ensures
        rle(pattern(clue, shifts, len)) == clue_ints(clue),
    decreases clue.len(),
{
    let pt = pattern(clue, shifts, len);
    let k = clue.len() as int;
    if k == 0 {
        assert forall|i: int| 0 <= i < pt.len() implies !(#[trigger] pt[i]) by {
            if covers(clue, shifts, i) {
                let iw = choose|iw: int| 0 <= iw < k && #[trigger] in_run(clue, shifts, iw, i);
            }
        }
        lemma_rle_acc_all_false(pt, 0);
        assert(clue_ints(clue) =~= Seq::<int>::empty());
    } else {
        lemma_run_in_bounds(clue, shifts, len, 0);
        let rs0 = run_start(clue, shifts, 0);
        let c0 = clue[0] as int;
        assert(rs0 == shifts[0]) by {
            assert(sum_prefix(shifts, 0) == 0);
            assert(sum_prefix(clue, 0) == 0);
            assert(sum_prefix(shifts, 1) == sum_prefix(shifts, 0) + shifts[0]);
        }
        let gap = pt.subrange(0, rs0);
        let run = pt.subrange(rs0, rs0 + c0);
        let rest = pt.skip(rs0 + c0);
        assert forall|i: int| 0 <= i < gap.len() implies !(#[trigger] gap[i]) by {
            if covers(clue, shifts, i) {
                let iw = choose|iw: int| 0 <= iw < k && #[trigger] in_run(clue, shifts, iw, i);
                if iw > 0 {
                    lemma_run_start_monotone(clue, shifts, 0, iw);
                }
            }
        }
        assert forall|i: int| 0 <= i < run.len() implies #[trigger] run[i] by {
            assert(in_run(clue, shifts, 0, rs0 + i));
        }
        assert(pt =~= gap + (run + rest));
        lemma_rle_acc_false_prefix(gap, run + rest);
        lemma_rle_acc_true_prefix(run, rest, 0);
        assert(rle(pt) == rle_acc(rest, c0));
        if k == 1 {
            assert forall|i: int| 0 <= i < rest.len() implies !(#[trigger] rest[i]) by {
                if covers(clue, shifts, rs0 + c0 + i) {
                    let iw = choose|iw: int|
                        0 <= iw < k && #[trigger] in_run(clue, shifts, iw, rs0 + c0 + i);
                }
            }
            lemma_rle_acc_all_false(rest, c0);
            assert(rle(pt) =~= clue_ints(clue));
        } else {
            assert(rs0 + c0 < len) by {
                lemma_run_in_bounds(clue, shifts, len, 1);
                lemma_run_start_monotone(clue, shifts, 0, 1);
            }
            assert(!rest[0]) by {
                if covers(clue, shifts, rs0 + c0) {
                    let iw = choose|iw: int|
                        0 <= iw < k && #[trigger] in_run(clue, shifts, iw, rs0 + c0);
                    if iw > 0 {
                        lemma_run_start_monotone(clue, shifts, 0, iw);
                    }
                }
            }
            let rest2 = pt.skip(rs0 + c0 + 1);
            assert(rest =~= seq![false] + rest2);
            assert(rle_acc(rest, c0) == seq![c0] + rle_acc(rest2, 0)) by {
                assert(rest[0] == false);
                assert(rest.drop_first() =~= rest2);
            }
            let clue2 = clue.drop_first();
            let shifts2 = shifts.drop_first();
            let len2 = len - (rs0 + c0 + 1);
            assert(is_shift_vec(shifts2, clue2, len2)) by {
                lemma_sum_prefix_drop_first(shifts, shifts.len() as int - 1);
                lemma_sum_prefix_drop_first(clue, clue.len() as int - 1);
                assert(seq_sum(shifts2) == seq_sum(shifts) - shifts[0]);
                assert(seq_sum(clue2) == seq_sum(clue) - clue[0]);
            }
            assert(rest2 =~= pattern(clue2, shifts2, len2)) by {
                assert forall|p: int| 0 <= p < len2 implies rest2[p] == pattern(
                    clue2,
                    shifts2,
                    len2,
                )[p] by {
                    lemma_covers_shift(clue, shifts, p);
                }
            }
            lemma_pattern_rle(clue2, shifts2, len2);
            assert(rle(pt) == seq![c0] + clue_ints(clue2));
            assert(seq![c0] + clue_ints(clue2) =~= clue_ints(clue));
        }
    }
}

/// The line with every covered cell filled in: what a placement would make
/// of the cells already known.
pub open spec fn merged(line: Seq<Option<bool>>, clue: Seq<usize>, shifts: Seq<usize>) -> Seq<
    bool,
> {
    Seq::new(line.len(), |p: int| line[p] == Some(true) || covers(clue, shifts, p))
}

/// Number of filled cells in a boolean line.
pub open spec fn count_trues(b: Seq<bool>) -> int
    decreases b.len(),
{
    if b.len() == 0 {
        0
    } else {
        (if b[0] {
            1int
        } else {
            0int
        }) + count_trues(b.drop_first())
    }
}

/// Sum of an encoding's run lengths.
pub open spec fn int_sum(s: Seq<int>) -> int
    decreases s.len(),
{
    if s.len() == 0 {
        0
    } else {
        s[0] + int_sum(s.drop_first())
    }
}

/// An encoding sums to the open run plus the filled cells it describes.
proof fn lemma_rle_acc_sum(b: Seq<bool>, cur: int)
    requires
        cur >= 0,
    ensures
        int_sum(rle_acc(b, cur)) == cur + count_trues(b),
    decreases b.len(),
{
    if b.len() == 0 {
        if cur > 0 {
            assert(seq![cur].drop_first() =~= Seq::<int>::empty());
            assert(int_sum(seq![cur]) == cur + int_sum(Seq::<int>::empty()));
        }
    } else if b[0] {
        lemma_rle_acc_sum(b.drop_first(), cur + 1);
    } else {
        lemma_rle_acc_sum(b.drop_first(), 0);
        if cur > 0 {
            let rest = rle_acc(b.drop_first(), 0);
            assert((seq![cur] + rest).drop_first() =~= rest);
            assert(int_sum(seq![cur] + rest) == cur + int_sum(rest));
        }
    }
}

/// The clue's run lengths sum to the clue's sum.
proof fn lemma_clue_ints_sum(clue: Seq<usize>)
    ensures
        int_sum(clue_ints(clue)) == seq_sum(clue),
    decreases clue.len(),
{
    if clue.len() == 0 {
        assert(clue_ints(clue) =~= Seq::<int>::empty());
    } else {
        lemma_clue_ints_sum(clue.drop_first());
        assert(clue_ints(clue).drop_first() =~= clue_ints(clue.drop_first()));
        lemma_sum_prefix_drop_first(clue, clue.len() as int - 1);
        assert(int_sum(clue_ints(clue)) == clue[0] + int_sum(clue_ints(clue.drop_first())));
    }
}

/// Filling strictly more cells strictly raises the filled-cell count.
proof fn lemma_count_trues_strict(b1: Seq<bool>, b2: Seq<bool>, p: int)
    requires
        b1.len() == b2.len(),
        forall|q: int| 0 <= q < b1.len() ==> ((#[trigger] b1[q]) ==> b2[q]),
        0 <= p < b1.len(),
        !b1[p],
        b2[p],
    ensures
        count_trues(b2) > count_trues(b1),
    decreases b1.len(),
{
    assert forall|q: int|
        0 <= q < b1.drop_first().len() implies ((#[trigger] b1.drop_first()[q])
        ==> b2.drop_first()[q]) by {
        assert(b1.drop_first()[q] == b1[q + 1]);
    }
    if p == 0 {
        lemma_count_trues_mono(b1.drop_first(), b2.drop_first());
    } else {
        lemma_count_trues_strict(b1.drop_first(), b2.drop_first(), p - 1);
    }
}

/// Filling more cells never lowers the filled-cell count.
proof fn lemma_count_trues_mono(b1: Seq<bool>, b2: Seq<bool>)
    requires
        b1.len() == b2.len(),
        forall|q: int| 0 <= q < b1.len() ==> ((#[trigger] b1[q]) ==> b2[q]),
    ensures
        count_trues(b2) >= count_trues(b1),
    decreases b1.len(),
{
    if b1.len() > 0 {
        assert forall|q: int|
            0 <= q < b1.drop_first().len() implies ((#[trigger] b1.drop_first()[q])
            ==> b2.drop_first()[q]) by {
            assert(b1.drop_first()[q] == b1[q + 1]);
        }
        lemma_count_trues_mono(b1.drop_first(), b2.drop_first());
    }
}

/// Placement validity agrees with its run-length reading: a placement fits
/// the line exactly when no covered cell is known empty and the line, with
/// all covered cells marked filled and every other cell treated as empty,
/// encodes back to exactly the clue.
pub proof fn lemma_placement_ok_iff_rle(
    line: Seq<Option<bool>>,
    clue: Seq<usize>,
    shifts: Seq<usize>,
)
    requires
        is_shift_vec(shifts, clue, line.len() as int),
        forall|i: int| 0 <= i < clue.len() ==> #[trigger] clue[i] >= 1,
    ensures
        placement_ok(line, clue, shifts) <==> ((forall|p: int|
            0 <= p < line.len() && #[trigger] covers(clue, shifts, p) ==> line[p] != Some(false))
            && rle(merged(line, clue, shifts)) == clue_ints(clue)),
{
    let mg = merged(line, clue, shifts);
    let pt = pattern(clue, shifts, line.len() as int);
    lemma_pattern_rle(clue, shifts, line.len() as int);
    if placement_ok(line, clue, shifts) {
        assert(mg =~= pt);
    }
    if !placement_ok(line, clue, shifts) && (forall|p: int|
        0 <= p < line.len() && #[trigger] covers(clue, shifts, p) ==> line[p] != Some(false)) {
        let p0 = choose|p: int|
            0 <= p < line.len() && !((line[p] == Some(true) ==> covers(clue, shifts, p)) && (
            line[p] == Some(false) ==> !covers(clue, shifts, p)));
        assert(line[p0] == Some(true) && !covers(clue, shifts, p0));
        assert(!pt[p0] && mg[p0]);
        assert forall|q: int| 0 <= q < pt.len() implies ((#[trigger] pt[q]) ==> mg[q]) by {}
        lemma_count_trues_strict(pt, mg, p0);
        lemma_rle_acc_sum(pt, 0);
        lemma_rle_acc_sum(mg, 0);
        lemma_clue_ints_sum(clue);
        assert(int_sum(rle(mg)) != int_sum(clue_ints(clue)));
        assert(rle(mg) != clue_ints(clue));
    }
}

/// Round trip: in a fully decided line that some admissible placement
/// explains, the filled cells are exactly the placement's cells, so their
/// run-length encoding is exactly the line's clue.
pub proof fn lemma_solved_line_rle(line: Seq<Option<bool>>, clue: Seq<usize>, shifts: Seq<usize>)
    requires
        valid_placement(line, clue, shifts),
        forall|i: int| 0 <= i < clue.len() ==> #[trigger] clue[i] >= 1,
        forall|p: int| 0 <= p < line.len() ==> (#[trigger] line[p]) is Some,
    ensures
        rle(Seq::new(line.len(), |p: int| line[p] == Some(true))) == clue_ints(clue),
{
    let filled = Seq::new(line.len(), |p: int| line[p] == Some(true));
    assert forall|p: int| 0 <= p < line.len() implies filled[p] == covers(clue, shifts, p) by {
        assert(line[p] == Some(true) || line[p] == Some(false));
    }
    assert(filled =~= pattern(clue, shifts, line.len() as int));
    lemma_pattern_rle(clue, shifts, line.len() as int);
}

} // verus!
