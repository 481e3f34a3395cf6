//! Enumeration of shift compositions.
//!
//! A placement of `k` runs in a line with `slack` spare gap cells is chosen
//! by distributing at most `slack` extra cells over the `k` gaps before the
//! runs (whatever is left over trails the last run).  `all_compositions`
//! produces every such distribution; its contract states soundness
//! (everything produced is a distribution), completeness (every distribution
//! is produced), and that nothing is produced twice.

use crate::model::{lemma_sum_prefix_cons, lemma_sum_prefix_mono, seq_sum, sum_prefix};
use vstd::prelude::*;

verus! {

/// `s` distributes at most `slack` extra gap cells over `k` shift positions.
pub open spec fn is_composition(s: Seq<usize>, k: int, slack: int) -> bool {
    &&& s.len() == k
    &&& seq_sum(s) <= slack
}

/// Every way to distribute at most `slack` extra gap cells over `k` shift
/// positions, each produced exactly once.
pub fn all_compositions(k: usize, slack: usize) -> (r: Vec<Vec<usize>>)
    ensures
        forall|j: int| 0 <= j < r@.len() ==> is_composition(#[trigger] r@[j]@, k as int, slack as int),
        forall|s: Seq<usize>|
            #[trigger] is_composition(s, k as int, slack as int) ==> exists|j: int|
                0 <= j < r@.len() && (#[trigger] r@[j]@) == s,
        forall|j1: int, j2: int|
            #![trigger r@[j1], r@[j2]]
            0 <= j1 < j2 < r@.len() ==> r@[j1]@ != r@[j2]@,
    decreases k,
{
    let mut r: Vec<Vec<usize>> = Vec::new();
    if k == 0 {
        let empty: Vec<usize> = Vec::new();
        r.push(empty);
        proof {
            assert(r@[0]@ =~= Seq::<usize>::empty());
            assert forall|s: Seq<usize>| #[trigger]
                is_composition(s, k as int, slack as int) implies exists|j: int|
                0 <= j < r@.len() && (#[trigger] r@[j]@) == s by {
                assert(s =~= r@[0]@);
                assert(0 <= 0 < r@.len() && r@[0]@ == s);
            }
        }
        return r;
    }
    let mut f: usize = 0;
    loop
        invariant_except_break
            forall|j: int| 0 <= j < r@.len() ==> (#[trigger] r@[j]@).len() >= 1 && r@[j]@[0] < f,
        invariant
            f <= slack,
            k >= 1,
            forall|j: int| 0 <= j < r@.len() ==> is_composition(
                #[trigger] r@[j]@,
                k as int,
                slack as int,
            ),
            forall|s: Seq<usize>|
                #[trigger] is_composition(s, k as int, slack as int) && s[0] < f ==> exists|j: int|
                    0 <= j < r@.len() && (#[trigger] r@[j]@) == s,
            forall|j1: int, j2: int|
                #![trigger r@[j1], r@[j2]]
                0 <= j1 < j2 < r@.len() ==> r@[j1]@ != r@[j2]@,
        ensures
            forall|j: int| 0 <= j < r@.len() ==> is_composition(
                #[trigger] r@[j]@,
                k as int,
                slack as int,
            ),
            forall|s: Seq<usize>|
                #[trigger] is_composition(s, k as int, slack as int) ==> exists|j: int|
                    0 <= j < r@.len() && (#[trigger] r@[j]@) == s,
            forall|j1: int, j2: int|
                #![trigger r@[j1], r@[j2]]
                0 <= j1 < j2 < r@.len() ==> r@[j1]@ != r@[j2]@,
        decreases slack - f,
    {
        let rest = all_compositions(k - 1, slack - f);
        let ghost r_start = r@.len() as int;
        let mut j: usize = 0;
        while j < rest.len()
            invariant
                j <= rest.len(),
                k >= 1,
                f <= slack,
                r@.len() == r_start + j,
                0 <= r_start,
                forall|jj: int| 0 <= jj < rest@.len() ==> is_composition(
                    #[trigger] rest@[jj]@,
                    k as int - 1,
                    slack as int - f,
                ),
                forall|j1: int, j2: int|
                    #![trigger rest@[j1], rest@[j2]]
                    0 <= j1 < j2 < rest@.len() ==> rest@[j1]@ != rest@[j2]@,
                forall|jj: int| 0 <= jj < r@.len() ==> is_composition(
                    #[trigger] r@[jj]@,
                    k as int,
                    slack as int,
                ),
                forall|jj: int|
                    0 <= jj < r_start ==> (#[trigger] r@[jj]@).len() >= 1 && r@[jj]@[0] < f,
                forall|t: int|
                    #![trigger rest@[t]]
                    0 <= t < j ==> r@[r_start + t]@ == seq![f] + rest@[t]@,
                forall|s: Seq<usize>|
                    #[trigger] is_composition(s, k as int, slack as int) && s[0] < f
                        ==> exists|i: int| 0 <= i < r_start && (#[trigger] r@[i]@) == s,
                forall|j1: int, j2: int|
                    #![trigger r@[j1], r@[j2]]
                    0 <= j1 < j2 < r@.len() ==> r@[j1]@ != r@[j2]@,
            decreases rest.len() - j,
        {
            let rj = &rest[j];
            let mut comp: Vec<usize> = Vec::new();
            comp.push(f);
            let mut t: usize = 0;
            while t < rj.len()
                invariant
                    t <= rj@.len(),
                    comp@ == seq![f] + rj@.take(t as int),
                decreases rj@.len() - t,
            {
                comp.push(rj[t]);
                proof {
                    assert(comp@ =~= seq![f] + rj@.take(t as int + 1));
                }
                t += 1;
            }
            proof {
                assert(rj@.take(t as int) =~= rj@);
                assert(is_composition(rj@, k as int - 1, slack as int - f));
                lemma_sum_prefix_cons(f, rj@, rj@.len() as int);
                assert(seq_sum(comp@) == f + seq_sum(rj@));
                assert(is_composition(comp@, k as int, slack as int));
            }
            let ghost r_old = r@;
            proof {
                assert(comp@ == seq![f] + rest@[j as int]@);
            }
            r.push(comp);
            proof {
                assert forall|s: Seq<usize>| #[trigger]
                    is_composition(s, k as int, slack as int) && s[0] < f implies exists|i: int|
                    0 <= i < r_start && (#[trigger] r@[i]@) == s by {
                    let i = choose|i: int| 0 <= i < r_start && (#[trigger] r_old[i]@) == s;
                    assert(r@[i]@ == s);
                }
                assert forall|j1: int, j2: int|
                    #![trigger r@[j1], r@[j2]]
                    0 <= j1 < j2 < r@.len() implies r@[j1]@ != r@[j2]@ by {
                    if j2 == r@.len() - 1 {
                        assert(r@[j2]@ == seq![f] + rest@[j as int]@);
                        if j1 < r_start {
                            assert(r@[j1]@[0] < f);
                            assert(r@[j2]@[0] == f);
                        } else {
                            let t1 = j1 - r_start;
                            assert(r@[j1]@ == seq![f] + rest@[t1]@);
                            assert(rest@[t1]@ != rest@[j as int]@);
                            assert((seq![f] + rest@[t1]@).drop_first() =~= rest@[t1]@);
                            assert((seq![f] + rest@[j as int]@).drop_first() =~= rest@[
                                j as int]@);
                        }
                    } else {
                        assert(r@[j1]@ == r_old[j1]@ && r@[j2]@ == r_old[j2]@);
                    }
                }
            }
            j += 1;
        }
        proof {
            assert forall|s: Seq<usize>| #[trigger]
                is_composition(s, k as int, slack as int) && s[0] < f + 1 implies exists|i: int|
                0 <= i < r@.len() && (#[trigger] r@[i]@) == s by {
                if s[0] >= f {
                    let tail = s.drop_first();
                    assert(seq![f] + tail =~= s);
                    lemma_sum_prefix_cons(f, tail, tail.len() as int);
                    assert(seq_sum(tail) == seq_sum(s) - f);
                    assert(is_composition(tail, k as int - 1, slack as int - f));
                    let jj = choose|jj: int| 0 <= jj < rest@.len() && (#[trigger] rest@[jj]@)
                        == tail;
                    assert(r@[r_start + jj]@ == seq![f] + rest@[jj]@);
                } else {
                    let i = choose|i: int| 0 <= i < r_start && (#[trigger] r@[i]@) == s;
                }
            }
            assert forall|j2: int|
                0 <= j2 < r@.len() implies (#[trigger] r@[j2]@).len() >= 1 && r@[j2]@[0] < f
                + 1 by {
                if j2 >= r_start {
                    assert(r@[j2]@ == seq![f] + rest@[j2 - r_start]@);
                }
            }
        }
        if f == slack {
            proof {
                assert forall|s: Seq<usize>| #[trigger]
                    is_composition(s, k as int, slack as int) implies s[0] < f + 1 by {
                    lemma_sum_prefix_mono(s, 1, s.len() as int);
                    assert(sum_prefix(s, 1) == sum_prefix(s, 0) + s[0]);
                }
            }
            break;
        }
        f += 1;
    }
    r
}

} // verus!
