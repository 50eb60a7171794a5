//! The exact global-alignment engine: a Needleman-Wunsch style dynamic
//! program over a full scoring matrix, with a traceback that counts
//! mismatches and gaps and normalizes by the longer sequence's length.
//!
//! Costs are flat and distance-like: a matching diagonal step is free, a
//! mismatching diagonal step costs one, and every gap step costs one; the
//! fill minimizes the accumulated cost. Ties prefer the diagonal, then the
//! vertical move, then the horizontal one.

use vstd::prelude::*;

use crate::ratio::DistanceRatio;

verus! {

/// Cost of aligning two symbols in one diagonal step: free on a match, one
/// on a mismatch.
pub open spec fn subst_cost(x: u8, y: u8) -> int {
    if x == y {
        0
    } else {
        1
    }
}

/// The minimal alignment cost of the first `i` symbols of `a` against the
/// first `j` symbols of `b`: the scoring matrix's cell `(i, j)`. The first
/// row and column price a pure-gap alignment at one per position.
pub open spec fn nw_cost(a: Seq<u8>, b: Seq<u8>, i: int, j: int) -> int
    decreases i + j,
{
    if i <= 0 && j <= 0 {
        0
    } else if i <= 0 {
        j
    } else if j <= 0 {
        i
    } else {
        let diag = nw_cost(a, b, i - 1, j - 1) + subst_cost(a[i - 1], b[j - 1]);
        let horizontal = nw_cost(a, b, i, j - 1) + 1;
        let vertical = nw_cost(a, b, i - 1, j) + 1;
        vstd::math::min(diag, vstd::math::min(horizontal, vertical))
    }
}

/// The move recorded in the traceback matrix at cell `(i, j)`: the first row
/// is all horizontal, the first column all vertical, and an interior cell
/// records which neighbour produced its minimum, diagonal first, then
/// vertical, then horizontal.
pub open spec fn nw_dir(a: Seq<u8>, b: Seq<u8>, i: int, j: int) -> char {
    if i <= 0 {
        'H'
    } else if j <= 0 {
        'V'
    } else {
        let diag = nw_cost(a, b, i - 1, j - 1) + subst_cost(a[i - 1], b[j - 1]);
        let horizontal = nw_cost(a, b, i, j - 1) + 1;
        let vertical = nw_cost(a, b, i - 1, j) + 1;
        let minimum = vstd::math::min(diag, vstd::math::min(horizontal, vertical));
        if minimum == diag {
            'D'
        } else if minimum == vertical {
            'V'
        } else {
            'H'
        }
    }
}

/// The number of mismatch and gap units the traceback counts when it replays
/// the recorded moves from cell `(i, j)` back to the first row or column.
pub open spec fn nw_walk(a: Seq<u8>, b: Seq<u8>, i: int, j: int) -> int
    decreases i + j,
{
    if i <= 0 || j <= 0 {
        0
    } else {
        let d = nw_dir(a, b, i, j);
        if d == 'D' {
            subst_cost(a[i - 1], b[j - 1]) + nw_walk(a, b, i - 1, j - 1)
        } else if d == 'V' {
            1 + nw_walk(a, b, i - 1, j)
        } else {
            1 + nw_walk(a, b, i, j - 1)
        }
    }
}

/// Alignment costs are non-negative and never exceed the longer prefix.
pub proof fn lemma_nw_cost_bounds(a: Seq<u8>, b: Seq<u8>, i: int, j: int)
    requires
        0 <= i,
        0 <= j,
    ensures
        0 <= nw_cost(a, b, i, j) <= vstd::math::max(i, j),
    decreases i + j,
{
    if i > 0 && j > 0 {
        lemma_nw_cost_bounds(a, b, i - 1, j - 1);
        lemma_nw_cost_bounds(a, b, i - 1, j);
        lemma_nw_cost_bounds(a, b, i, j - 1);
    }
}

/// What the traceback counts is bounded by the cell's cost: a diagonal step
/// counts exactly its substitution cost and a gap step exactly one, while
/// the walk stops at the matrix border without counting the remaining gaps.
pub proof fn lemma_nw_walk_le_cost(a: Seq<u8>, b: Seq<u8>, i: int, j: int)
    requires
        0 <= i,
        0 <= j,
    ensures
        0 <= nw_walk(a, b, i, j) <= nw_cost(a, b, i, j),
    decreases i + j,
{
    lemma_nw_cost_bounds(a, b, i, j);
    if i > 0 && j > 0 {
        lemma_nw_walk_le_cost(a, b, i - 1, j - 1);
        lemma_nw_walk_le_cost(a, b, i - 1, j);
        lemma_nw_walk_le_cost(a, b, i, j - 1);
    }
}

/// Along the main diagonal of a self-alignment both the cost and the
/// traceback count are zero: every step is a free diagonal match.
pub proof fn lemma_nw_identical(a: Seq<u8>, i: int)
    requires
        0 <= i,
    ensures
        nw_cost(a, a, i, i) == 0,
        nw_walk(a, a, i, i) == 0,
    decreases i,
{
    if i > 0 {
        lemma_nw_identical(a, i - 1);
        lemma_nw_cost_bounds(a, a, i - 1, i);
        lemma_nw_cost_bounds(a, a, i, i - 1);
    }
}

/// Aligning any sequence against itself yields distance zero: the traceback
/// of the self-alignment counts no mismatch and no gap.
pub proof fn lemma_identical_distance_zero(a: Seq<u8>)
    ensures
        nw_walk(a, a, a.len() as int, a.len() as int) == 0,
{
    lemma_nw_identical(a, a.len() as int);
}

/// A filled prefix of the two matrices matches the specification cell by
/// cell and has rows of width `n`.
spec fn rows_ok(
    scoring: Seq<Vec<usize>>,
    traceback: Seq<Vec<char>>,
    a: Seq<u8>,
    b: Seq<u8>,
    n: int,
) -> bool {
    &&& scoring.len() == traceback.len()
    &&& forall|ii: int| 0 <= ii < scoring.len() ==> (#[trigger] scoring[ii])@.len() == n
    &&& forall|ii: int| 0 <= ii < traceback.len() ==> (#[trigger] traceback[ii])@.len() == n
    &&& forall|ii: int, jj: int|
        0 <= ii < scoring.len() && 0 <= jj < n ==> (#[trigger] scoring[ii]@[jj]) as int == nw_cost(
            a,
            b,
            ii,
            jj,
        )
    &&& forall|ii: int, jj: int|
        0 <= ii < traceback.len() && 0 <= jj < n ==> (#[trigger] traceback[ii]@[jj]) == nw_dir(
            a,
            b,
            ii,
            jj,
        )
}

/// The exact alignment distance between two sequences: fill the scoring and
/// traceback matrices, replay the traceback from the far corner, and report
/// the counted mismatch and gap units over the longer sequence's length, as
/// an exact ratio in `[0, 1]`. Two empty sequences are at distance zero.
pub fn needleman_wunsh_distance(first_sequence: &Vec<u8>, second_sequence: &Vec<u8>) -> (r:
    DistanceRatio)
    requires
        first_sequence@.len() < usize::MAX,
        second_sequence@.len() < usize::MAX,
    ensures
        r.wf(),
        r.numerator as int == nw_walk(
            first_sequence@,
            second_sequence@,
            first_sequence@.len() as int,
            second_sequence@.len() as int,
        ),
        r.denominator as int == (if first_sequence@.len() >= second_sequence@.len() {
            if first_sequence@.len() >= 1 {
                first_sequence@.len() as int
            } else {
                1
            }
        } else {
            second_sequence@.len() as int
        }),
{
    let ghost a = first_sequence@;
    let ghost b = second_sequence@;
    let ghost l1 = a.len() as int;
    let ghost l2 = b.len() as int;
    let m = first_sequence.len() + 1;
    let n = second_sequence.len() + 1;
    let mut scoring_matrix: Vec<Vec<usize>> = Vec::new();
    let mut traceback_matrix: Vec<Vec<char>> = Vec::new();
    let mut i: usize = 0;
    while i < m
        invariant
            a == first_sequence@,
            b == second_sequence@,
            l1 == a.len(),
            l2 == b.len(),
            m == l1 + 1,
            n == l2 + 1,
            l1 < usize::MAX,
            l2 < usize::MAX,
            0 <= i <= m,
            scoring_matrix@.len() == i,
            traceback_matrix@.len() == i,
            rows_ok(scoring_matrix@, traceback_matrix@, a, b, n as int),
        decreases m - i,
    {
        let mut srow: Vec<usize> = Vec::new();
        let mut trow: Vec<char> = Vec::new();
        let mut j: usize = 0;
        while j < n
            invariant
                a == first_sequence@,
                b == second_sequence@,
                l1 == a.len(),
                l2 == b.len(),
                m == l1 + 1,
                n == l2 + 1,
                l1 < usize::MAX,
                l2 < usize::MAX,
                0 <= i < m,
                0 <= j <= n,
                scoring_matrix@.len() == i,
                traceback_matrix@.len() == i,
                rows_ok(scoring_matrix@, traceback_matrix@, a, b, n as int),
                srow@.len() == j,
                trow@.len() == j,
                forall|jj: int|
                    0 <= jj < j ==> (#[trigger] srow@[jj]) as int == nw_cost(a, b, i as int, jj),
                forall|jj: int|
                    0 <= jj < j ==> (#[trigger] trow@[jj]) == nw_dir(a, b, i as int, jj),
            decreases n - j,
        {
            if i == 0 {
                srow.push(j);
                trow.push('H');
            } else if j == 0 {
                srow.push(i);
                trow.push('V');
            } else {
                proof {
                    lemma_nw_cost_bounds(a, b, i as int - 1, j as int - 1);
                    lemma_nw_cost_bounds(a, b, i as int - 1, j as int);
                    lemma_nw_cost_bounds(a, b, i as int, j as int - 1);
                    assert(scoring_matrix@[i - 1]@.len() == n as int);
                    assert(scoring_matrix@[i - 1]@[j - 1] as int == nw_cost(
                        a,
                        b,
                        i as int - 1,
                        j as int - 1,
                    ));
                    assert(scoring_matrix@[i - 1]@[j as int] as int == nw_cost(
                        a,
                        b,
                        i as int - 1,
                        j as int,
                    ));
                    assert(srow@[j - 1] as int == nw_cost(a, b, i as int, j as int - 1));
                }
                let sub: usize = if first_sequence[i - 1] == second_sequence[j - 1] {
                    0
                } else {
                    1
                };
                let diag = scoring_matrix[i - 1][j - 1] + sub;
                let horizontal = srow[j - 1] + 1;
                let vertical = scoring_matrix[i - 1][j] + 1;
                let inner_min = if horizontal <= vertical {
                    horizontal
                } else {
                    vertical
                };
                let minimum_score = if diag <= inner_min {
                    diag
                } else {
                    inner_min
                };
                proof {
                    assert(minimum_score as int == nw_cost(a, b, i as int, j as int));
                }
                srow.push(minimum_score);
                if minimum_score == diag {
                    proof {
                        assert(nw_dir(a, b, i as int, j as int) == 'D');
                    }
                    trow.push('D');
                } else if minimum_score == vertical {
                    proof {
                        assert(nw_dir(a, b, i as int, j as int) == 'V');
                    }
                    trow.push('V');
                } else {
                    proof {
                        assert(nw_dir(a, b, i as int, j as int) == 'H');
                    }
                    trow.push('H');
                }
            }
            j = j + 1;
        }
        scoring_matrix.push(srow);
        traceback_matrix.push(trow);
        i = i + 1;
    }

    let mut dist: usize = 0;
    let mut ti: usize = m - 1;
    let mut tj: usize = n - 1;
    proof {
        lemma_nw_walk_le_cost(a, b, l1, l2);
        lemma_nw_cost_bounds(a, b, l1, l2);
    }
    while ti != 0 && tj != 0
        invariant
            a == first_sequence@,
            b == second_sequence@,
            l1 == a.len(),
            l2 == b.len(),
            m == l1 + 1,
            n == l2 + 1,
            l1 < usize::MAX,
            l2 < usize::MAX,
            0 <= ti <= l1,
            0 <= tj <= l2,
            scoring_matrix@.len() == m,
            traceback_matrix@.len() == m,
            rows_ok(scoring_matrix@, traceback_matrix@, a, b, n as int),
            dist + nw_walk(a, b, ti as int, tj as int) == nw_walk(a, b, l1, l2),
            nw_walk(a, b, l1, l2) <= vstd::math::max(l1, l2),
        decreases ti + tj,
    {
        proof {
            lemma_nw_walk_le_cost(a, b, ti as int - 1, tj as int - 1);
            lemma_nw_walk_le_cost(a, b, ti as int - 1, tj as int);
            lemma_nw_walk_le_cost(a, b, ti as int, tj as int - 1);
            lemma_nw_walk_le_cost(a, b, ti as int, tj as int);
            assert(traceback_matrix@[ti as int]@.len() == n as int);
            assert(traceback_matrix@[ti as int]@[tj as int] == nw_dir(a, b, ti as int, tj as int));
        }
        let dir = traceback_matrix[ti][tj];
        proof {
            assert(dir == nw_dir(a, b, ti as int, tj as int));
        }
        if dir == 'D' {
            if first_sequence[ti - 1] != second_sequence[tj - 1] {
                dist = dist + 1;
            }
            ti = ti - 1;
            tj = tj - 1;
        } else if dir == 'H' {
            dist = dist + 1;
            tj = tj - 1;
        } else {
            dist = dist + 1;
            ti = ti - 1;
        }
    }
    let max_len = if first_sequence.len() >= second_sequence.len() {
        first_sequence.len()
    } else {
        second_sequence.len()
    };
    let denominator = if max_len == 0 {
        1
    } else {
        max_len
    };
    proof {
        lemma_nw_walk_le_cost(a, b, l1, l2);
        lemma_nw_cost_bounds(a, b, l1, l2);
    }
    DistanceRatio { numerator: dist, denominator }
}

} // verus!
