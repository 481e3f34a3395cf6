use nonogram::comps::all_compositions;
use nonogram::solver::{Nonogram, SolveError};

fn unknown_line(n: usize) -> Vec<Option<bool>> {
    vec![None; n]
}

// Brute-force reference: enumerate every shift vector with sum <= slack and
// keep those consistent with the line, judging consistency by the run-length
// encoding of the merged line as the design describes.
fn brute_force_placements(line: &[Option<bool>], clue: &[usize]) -> Vec<Vec<usize>> {
    let total: usize = clue.iter().sum();
    let k = clue.len();
    if total + k > line.len() + 1 {
        return Vec::new();
    }
    let slack = line.len() + 1 - total - k;
    let mut out = Vec::new();
    let mut shifts = vec![0usize; k];
    loop {
        if brute_force_ok(line, clue, &shifts) {
            out.push(shifts.clone());
        }
        // advance to the next shift vector with sum <= slack
        let mut i = k;
        loop {
            if i == 0 {
                return out;
            }
            i -= 1;
            shifts[i] += 1;
            if shifts.iter().sum::<usize>() <= slack {
                break;
            }
            shifts[i] = 0;
        }
        if k == 0 {
            return out;
        }
    }
}

fn brute_force_ok(line: &[Option<bool>], clue: &[usize], shifts: &[usize]) -> bool {
    let mut merge: Vec<bool> = line.iter().map(|&e| e == Some(true)).collect();
    let mut pos = 0usize;
    for i in 0..clue.len() {
        pos += shifts[i];
        for j in 0..clue[i] {
            if line[pos + j] == Some(false) {
                return false;
            }
            merge[pos + j] = true;
        }
        pos += clue[i] + 1;
    }
    rle_of(&merge) == clue
}

fn rle_of(merge: &[bool]) -> Vec<usize> {
    let mut encode = Vec::new();
    let mut last = 0usize;
    for &m in merge {
        if m {
            last += 1;
        } else {
            if last != 0 {
                encode.push(last);
            }
            last = 0;
        }
    }
    if last != 0 {
        encode.push(last);
    }
    encode
}

#[test]
fn check_suggestion_accepts_a_fitting_placement() {
    // clue [2, 1] in a line of 6, shifts [1, 0]: runs at 1..3 and 4..5
    let line = unknown_line(6);
    let clue = vec![2, 1];
    let shifts = vec![1, 0];
    assert!(Nonogram::check_suggestion(&line, &clue, &shifts));
}

#[test]
fn check_suggestion_rejects_a_run_over_an_empty_cell() {
    let mut line = unknown_line(6);
    line[2] = Some(false);
    let clue = vec![2, 1];
    let shifts = vec![1, 0]; // first run covers cells 1 and 2
    assert!(!Nonogram::check_suggestion(&line, &clue, &shifts));
}

#[test]
fn check_suggestion_rejects_an_uncovered_filled_cell() {
    let mut line = unknown_line(6);
    line[0] = Some(true);
    let clue = vec![2, 1];
    let shifts = vec![1, 0]; // covers 1..3 and 4..5, not cell 0
    assert!(!Nonogram::check_suggestion(&line, &clue, &shifts));
}

#[test]
fn compositions_of_two_into_two_positions() {
    let comps = all_compositions(2, 2);
    // C(2 + 2, 2) = 6 ways to spend at most 2 units over 2 positions
    assert_eq!(comps.len(), 6);
    let mut seen: Vec<Vec<usize>> = comps.clone();
    seen.sort();
    seen.dedup();
    assert_eq!(seen.len(), 6);
    for c in &comps {
        assert_eq!(c.len(), 2);
        assert!(c[0] + c[1] <= 2);
    }
}

#[test]
fn suggest_matches_brute_force_on_small_lines() {
    // every cell the solver commits Filled is covered by all brute-force
    // placements, and every cell committed Empty by none
    let cases: Vec<(Vec<Option<bool>>, Vec<usize>)> = vec![
        (unknown_line(7), vec![2, 1]),
        (unknown_line(5), vec![3]),
        (unknown_line(12), vec![3, 2, 1]),
        (
            {
                let mut l = unknown_line(8);
                l[0] = Some(false);
                l[4] = Some(true);
                l
            },
            vec![2, 2],
        ),
    ];
    for (line, clue) in cases {
        let placements = brute_force_placements(&line, &clue);
        let mut resolved = line.clone();
        let mut queue = Vec::new();
        let count = Nonogram::suggest(&mut resolved, &clue, &mut queue).unwrap();
        assert_eq!(count, placements.len());
        for p in 0..line.len() {
            let covered: Vec<bool> = placements
                .iter()
                .map(|s| {
                    let mut pos = 0usize;
                    let mut hit = false;
                    for i in 0..clue.len() {
                        pos += s[i];
                        if (pos..pos + clue[i]).contains(&p) {
                            hit = true;
                        }
                        pos += clue[i] + 1;
                    }
                    hit
                })
                .collect();
            if line[p].is_some() {
                assert_eq!(resolved[p], line[p]);
            } else if covered.iter().all(|&c| c) {
                assert_eq!(resolved[p], Some(true));
            } else if covered.iter().all(|&c| !c) {
                assert_eq!(resolved[p], Some(false));
            } else {
                assert_eq!(resolved[p], None);
            }
        }
    }
}

#[test]
fn zero_slack_line_is_fully_decided_by_one_call() {
    // sum(C) + (len(C) - 1) == L: exactly one placement
    let mut line = unknown_line(5);
    let clue = vec![2, 2];
    let mut queue = Vec::new();
    let count = Nonogram::suggest(&mut line, &clue, &mut queue).unwrap();
    assert_eq!(count, 1);
    assert_eq!(
        line,
        vec![Some(true), Some(true), Some(false), Some(true), Some(true)]
    );
    assert_eq!(queue, vec![0, 1, 2, 3, 4]);
}

#[test]
fn resolving_a_decided_line_again_commits_nothing() {
    let mut line = unknown_line(5);
    let clue = vec![2, 2];
    let mut queue = Vec::new();
    let first = Nonogram::suggest(&mut line, &clue, &mut queue).unwrap();
    let snapshot = line.clone();
    let mut queue2 = Vec::new();
    let second = Nonogram::suggest(&mut line, &clue, &mut queue2).unwrap();
    assert_eq!(line, snapshot);
    assert!(queue2.is_empty());
    assert_eq!(first, second);
}

#[test]
fn empty_clue_empties_the_line() {
    let mut line = unknown_line(3);
    let clue: Vec<usize> = Vec::new();
    let mut queue = Vec::new();
    let count = Nonogram::suggest(&mut line, &clue, &mut queue).unwrap();
    assert_eq!(count, 1);
    assert_eq!(line, vec![Some(false), Some(false), Some(false)]);
}

#[test]
fn clue_too_long_for_the_line_is_infeasible() {
    let mut line = unknown_line(5);
    let clue = vec![4, 4];
    let mut queue = Vec::new();
    let r = Nonogram::suggest(&mut line, &clue, &mut queue);
    assert_eq!(r, Err(SolveError::InfeasibleClue));
    assert_eq!(line, unknown_line(5));
    assert!(queue.is_empty());
}

#[test]
fn seeded_cell_no_placement_covers_raises_contradiction() {
    // two filled cells too far apart for the single run of two
    let mut line = unknown_line(5);
    line[0] = Some(true);
    line[3] = Some(true);
    let clue = vec![2];
    let mut queue = Vec::new();
    let r = Nonogram::suggest(&mut line, &clue, &mut queue);
    assert_eq!(r, Err(SolveError::Contradiction));
    assert_eq!(line[0], Some(true));
    assert_eq!(line[3], Some(true));
    assert_eq!(line[1], None);
    assert!(queue.is_empty());
}

#[test]
fn partial_overlap_commits_only_the_middle() {
    // clue [3] in a line of 5: placements cover 0..3, 1..4, 2..5; only
    // cell 2 is in all of them, and none is uncovered in all
    let mut line = unknown_line(5);
    let clue = vec![3];
    let mut queue = Vec::new();
    let count = Nonogram::suggest(&mut line, &clue, &mut queue).unwrap();
    assert_eq!(count, 3);
    assert_eq!(line, vec![None, None, Some(true), None, None]);
    assert_eq!(queue, vec![2]);
}
