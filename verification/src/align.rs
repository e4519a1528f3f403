//! Adapter detection by local alignment.
//!
//! A read and an adapter are aligned Smith–Waterman style over a
//! dynamic-programming matrix with integer scores: match `+2`, mismatch
//! `-1`, gap `-2` — fixed constants of the aligner, not configuration.
//! Each cell is clamped at zero, so an alignment may start anywhere.  The
//! highest-scoring cell ends the alignment; the earliest such cell in
//! row-major order wins a tie.  A backtrace from that cell counts one
//! mismatch per differing diagonal move and one indel per vertical or
//! horizontal move, and yields the alignment's start row — the adapter's
//! offset in the read.

use vstd::prelude::*;
use vstd::arithmetic::div_mod::lemma_fundamental_div_mod_converse;
use vstd::math::max;

verus! {

/// The score-matrix cell at row `i` (read prefix length) and column `j`
/// (adapter prefix length): the standard local-alignment recurrence,
/// clamped at zero, with zero along both borders.
pub open spec fn sw_cell(s: Seq<u8>, a: Seq<u8>, i: int, j: int) -> int
    decreases i + j,
{
    if i <= 0 || j <= 0 {
        0
    } else {
        let diag = sw_cell(s, a, i - 1, j - 1) + (if s[i - 1] == a[j - 1] {
            2int
        } else {
            -1int
        });
        let up = sw_cell(s, a, i - 1, j) - 2;
        let left = sw_cell(s, a, i, j - 1) - 2;
        max(0, max(diag, max(up, left)))
    }
}

/// Matrix cells are never negative and never exceed twice the shorter
/// prefix: each diagonal move adds at most two.
pub proof fn lemma_sw_cell_bounds(s: Seq<u8>, a: Seq<u8>, i: int, j: int)
    requires
        i >= 0,
        j >= 0,
    ensures
        0 <= sw_cell(s, a, i, j),
        sw_cell(s, a, i, j) <= 2 * i,
        sw_cell(s, a, i, j) <= 2 * j,
    decreases i + j,
{
    if i > 0 && j > 0 {
        lemma_sw_cell_bounds(s, a, i - 1, j - 1);
        lemma_sw_cell_bounds(s, a, i - 1, j);
        lemma_sw_cell_bounds(s, a, i, j - 1);
    }
}

/// The running maximum over the first `k` matrix cells in row-major order —
/// cell (i, j) has rank (i - 1) * n + j for 1 <= i, 1 <= j <= n — as
/// (score, row, column).  The fold starts from (0, 0, 0) and moves only on
/// a strict improvement, so the earliest maximal cell wins.
pub open spec fn sw_best(s: Seq<u8>, a: Seq<u8>, k: int) -> (int, int, int)
    decreases k,
{
    if k <= 0 {
        (0, 0, 0)
    } else {
        let n = a.len() as int;
        let i = (k - 1) / n + 1;
        let j = (k - 1) % n + 1;
        let prev = sw_best(s, a, k - 1);
        let v = sw_cell(s, a, i, j);
        if v > prev.0 {
            (v, i, j)
        } else {
            prev
        }
    }
}

/// The backtrace from cell (i, j): walk diagonal, vertical or horizontal
/// moves matching how each cell's value was derived — in that order of
/// preference — until a zero cell or a border stops the walk.  Yields
/// (start row, start column, mismatches, indels) along the walked path.
pub open spec fn sw_backtrace(s: Seq<u8>, a: Seq<u8>, i: int, j: int) -> (int, int, int, int)
    decreases i + j,
{
    if i <= 0 || j <= 0 || sw_cell(s, a, i, j) <= 0 {
        (i, j, 0, 0)
    } else {
        let v = sw_cell(s, a, i, j);
        let match_add: int = if s[i - 1] == a[j - 1] {
            2
        } else {
            -1
        };
        if v == sw_cell(s, a, i - 1, j - 1) + match_add {
            let r = sw_backtrace(s, a, i - 1, j - 1);
            let miss: int = if s[i - 1] == a[j - 1] {
                0
            } else {
                1
            };
            (r.0, r.1, r.2 + miss, r.3)
        } else if v == sw_cell(s, a, i - 1, j) - 2 {
            let r = sw_backtrace(s, a, i - 1, j);
            (r.0, r.1, r.2, r.3 + 1)
        } else if v == sw_cell(s, a, i, j - 1) - 2 {
            let r = sw_backtrace(s, a, i, j - 1);
            (r.0, r.1, r.2, r.3 + 1)
        } else {
            (i, j, 0, 0)
        }
    }
}

/// A backtrace only walks up and left, so its start stays within the cell
/// it began from.
pub proof fn lemma_sw_backtrace_bounds(s: Seq<u8>, a: Seq<u8>, i: int, j: int)
    requires
        0 <= i,
        0 <= j,
    ensures
        0 <= sw_backtrace(s, a, i, j).0 <= i,
        0 <= sw_backtrace(s, a, i, j).1 <= j,
    decreases i + j,
{
    if i > 0 && j > 0 && sw_cell(s, a, i, j) > 0 {
        lemma_sw_backtrace_bounds(s, a, i - 1, j - 1);
        lemma_sw_backtrace_bounds(s, a, i - 1, j);
        lemma_sw_backtrace_bounds(s, a, i, j - 1);
    }
}

/// The running best cell always lies within the matrix.
pub proof fn lemma_sw_best_bounds(s: Seq<u8>, a: Seq<u8>, k: int)
    requires
        0 <= k <= s.len() * a.len(),
        a.len() >= 1,
    ensures
        0 <= sw_best(s, a, k).0,
        0 <= sw_best(s, a, k).1 <= s.len(),
        0 <= sw_best(s, a, k).2 <= a.len(),
    decreases k,
{
    if k > 0 {
        lemma_sw_best_bounds(s, a, k - 1);
        let n = a.len() as int;
        let m = s.len() as int;
        vstd::arithmetic::div_mod::lemma_mod_pos_bound(k - 1, n);
        assert(k - 1 < n * m) by (nonlinear_arith)
            requires
                k <= m * n,
                n >= 1,
        ;
        vstd::arithmetic::div_mod::lemma_multiply_divide_lt(k - 1, n, m);
    }
}

/// What the aligner reports for a read and an adapter, under the given
/// mismatch and indel budgets: (start row, end row, start column,
/// end column) of the best local alignment, or nothing when either side is
/// empty, no cell scores above zero, or the backtraced counts exceed a
/// budget.
pub open spec fn spec_sw_align(s: Seq<u8>, a: Seq<u8>, max_mismatches: int, max_indels: int) -> Option<
    (int, int, int, int),
> {
    if s.len() == 0 || a.len() == 0 {
        None
    } else {
        let best = sw_best(s, a, s.len() as int * a.len() as int);
        if best.0 <= 0 {
            None
        } else {
            let bt = sw_backtrace(s, a, best.1, best.2);
            if bt.2 <= max_mismatches && bt.3 <= max_indels {
                Some((bt.0, best.1, bt.1, best.2))
            } else {
                None
            }
        }
    }
}

/// Local alignment of a read against an adapter, with match `+2`,
/// mismatch `-1` and gap `-2`.  Returns the best alignment's start row,
/// end row, start column and end column, or nothing when no alignment
/// scores above zero or its backtrace exceeds a budget.
pub fn smith_waterman_align(
    sequence: &[u8],
    adapter: &[u8],
    max_mismatches: usize,
    max_indels: usize,
) -> (r: Option<(usize, usize, usize, usize)>)
    requires
        sequence@.len() <= 0x1000_0000,
        adapter@.len() <= 0x1000_0000,
    ensures
        match r {
            Some(t) => spec_sw_align(sequence@, adapter@, max_mismatches as int, max_indels as int)
                == Some((t.0 as int, t.1 as int, t.2 as int, t.3 as int)),
            None => spec_sw_align(
                sequence@,
                adapter@,
                max_mismatches as int,
                max_indels as int,
            ) is None,
        },
{
    let s = sequence;
    let a = adapter;
    let m = s.len();
    let n = a.len();
    if m == 0 || n == 0 {
        return None;
    }
    let mut matrix: Vec<Vec<i64>> = Vec::new();
    let mut row0: Vec<i64> = Vec::new();
    let mut c0: usize = 0;
    while c0 <= n
        invariant
            n <= 0x1000_0000,
            c0 <= n + 1,
            row0@.len() == c0,
            forall|q: int| 0 <= q < c0 ==> row0@[q] == 0,
        decreases n + 1 - c0,
    {
        row0.push(0);
        c0 = c0 + 1;
    }
    matrix.push(row0);
    let mut max_score: i64 = 0;
    let mut max_i: usize = 0;
    let mut max_j: usize = 0;
    let mut i: usize = 1;
    proof {
        assert(forall|q: int, w: int|
            0 <= q < 1 && 0 <= w <= n as int ==> #[trigger] matrix@[q]@[w] == sw_cell(
                s@,
                a@,
                q,
                w,
            ));
    }
    while i <= m
        invariant
            1 <= i <= m + 1,
            1 <= m == s@.len() <= 0x1000_0000,
            1 <= n == a@.len() <= 0x1000_0000,
            matrix@.len() == i,
            forall|q: int| 0 <= q < i ==> #[trigger] matrix@[q]@.len() == n + 1,
            forall|q: int, w: int|
                0 <= q < i && 0 <= w <= n as int ==> #[trigger] matrix@[q]@[w] == sw_cell(
                    s@,
                    a@,
                    q,
                    w,
                ),
            (max_score as int, max_i as int, max_j as int) == sw_best(
                s@,
                a@,
                (i - 1) as int * n as int,
            ),
            max_i <= m,
            max_j <= n,
        decreases m + 1 - i,
    {
        let mut row: Vec<i64> = Vec::new();
        row.push(0);
        let mut j: usize = 1;
        while j <= n
            invariant
                1 <= i <= m,
                1 <= j <= n + 1,
                1 <= m == s@.len() <= 0x1000_0000,
                1 <= n == a@.len() <= 0x1000_0000,
                matrix@.len() == i,
                forall|q: int| 0 <= q < i ==> #[trigger] matrix@[q]@.len() == n + 1,
                forall|q: int, w: int|
                    0 <= q < i && 0 <= w <= n as int ==> #[trigger] matrix@[q]@[w] == sw_cell(
                        s@,
                        a@,
                        q,
                        w,
                    ),
                row@.len() == j,
                forall|w: int| 0 <= w < j ==> #[trigger] row@[w] == sw_cell(s@, a@, i as int, w),
                (max_score as int, max_i as int, max_j as int) == sw_best(
                    s@,
                    a@,
                    (i - 1) as int * n as int + (j - 1),
                ),
                max_i <= m,
                max_j <= n,
            decreases n + 1 - j,
        {
            proof {
                lemma_sw_cell_bounds(s@, a@, i as int - 1, j as int - 1);
                lemma_sw_cell_bounds(s@, a@, i as int - 1, j as int);
                lemma_sw_cell_bounds(s@, a@, i as int, j as int - 1);
            }
            let diag0 = matrix[i - 1][j - 1];
            let up0 = matrix[i - 1][j];
            let left0 = row[j - 1];
            let match_add: i64 = if s[i - 1] == a[j - 1] {
                2
            } else {
                -1
            };
            let diag = diag0 + match_add;
            let up = up0 - 2;
            let left = left0 - 2;
            let mut v: i64 = 0;
            if diag > v {
                v = diag;
            }
            if up > v {
                v = up;
            }
            if left > v {
                v = left;
            }
            proof {
                assert(v as int == sw_cell(s@, a@, i as int, j as int));
            }
            row.push(v);
            proof {
                let k = (i - 1) as int * n as int + j as int;
                lemma_fundamental_div_mod_converse(
                    k - 1,
                    n as int,
                    (i - 1) as int,
                    (j - 1) as int,
                );
                assert(sw_best(s@, a@, k) == if sw_cell(s@, a@, i as int, j as int) > sw_best(
                    s@,
                    a@,
                    k - 1,
                ).0 {
                    (sw_cell(s@, a@, i as int, j as int), i as int, j as int)
                } else {
                    sw_best(s@, a@, k - 1)
                });
            }
            if v > max_score {
                max_score = v;
                max_i = i;
                max_j = j;
            }
            j = j + 1;
        }
        matrix.push(row);
        i = i + 1;
        proof {
            assert((i - 1) as int * n as int == (i - 2) as int * n as int + n as int)
                by (nonlinear_arith);
        }
    }
    proof {
        assert((i - 1) as int * n as int == m as int * n as int);
    }
    if max_score <= 0 {
        return None;
    }
    let mut bi = max_i;
    let mut bj = max_j;
    let mut mm: usize = 0;
    let mut ind: usize = 0;
    let ghost target = sw_backtrace(s@, a@, max_i as int, max_j as int);
    while bi > 0 && bj > 0 && matrix[bi][bj] > 0
        invariant_except_break
            bi <= max_i <= m,
            bj <= max_j <= n,
            1 <= m == s@.len() <= 0x1000_0000,
            1 <= n == a@.len() <= 0x1000_0000,
            matrix@.len() == m + 1,
            forall|q: int| 0 <= q <= m as int ==> #[trigger] matrix@[q]@.len() == n + 1,
            forall|q: int, w: int|
                0 <= q <= m as int && 0 <= w <= n as int ==> #[trigger] matrix@[q]@[w] == sw_cell(
                    s@,
                    a@,
                    q,
                    w,
                ),
            mm + ind <= (max_i - bi) + (max_j - bj),
            target == sw_backtrace(s@, a@, max_i as int, max_j as int),
            ({
                let cur = sw_backtrace(s@, a@, bi as int, bj as int);
                target == (cur.0, cur.1, cur.2 + mm as int, cur.3 + ind as int)
            }),
        ensures
            bi <= max_i,
            bj <= max_j,
            target == (bi as int, bj as int, mm as int, ind as int),
        decreases bi + bj,
    {
        let match_add: i64 = if s[bi - 1] == a[bj - 1] {
            2
        } else {
            -1
        };
        proof {
            lemma_sw_cell_bounds(s@, a@, bi as int - 1, bj as int - 1);
            lemma_sw_cell_bounds(s@, a@, bi as int - 1, bj as int);
            lemma_sw_cell_bounds(s@, a@, bi as int, bj as int - 1);
        }
        if matrix[bi][bj] == matrix[bi - 1][bj - 1] + match_add {
            if s[bi - 1] != a[bj - 1] {
                mm = mm + 1;
            }
            bi = bi - 1;
            bj = bj - 1;
        } else if matrix[bi][bj] == matrix[bi - 1][bj] - 2 {
            ind = ind + 1;
            bi = bi - 1;
        } else if matrix[bi][bj] == matrix[bi][bj - 1] - 2 {
            ind = ind + 1;
            bj = bj - 1;
        } else {
            proof {
                assert(sw_backtrace(s@, a@, bi as int, bj as int) == (
                    bi as int,
                    bj as int,
                    0int,
                    0int,
                ));
            }
            break;
        }
    }
    if mm <= max_mismatches && ind <= max_indels {
        Some((bi, max_i, bj, max_j))
    } else {
        None
    }
}

/// Where the adapter sits in the read, under the detection gates: the
/// adapter is at least `min_match` long, the alignment spans at least
/// `min_match` adapter columns, and the backtraced mismatch and indel
/// counts are within their budgets.  Any gate failure means "no adapter
/// found", never an error.
pub open spec fn spec_detect_adapter(
    s: Seq<u8>,
    a: Seq<u8>,
    min_match: int,
    max_mismatches: int,
    max_indels: int,
) -> Option<int> {
    if a.len() < min_match {
        None
    } else {
        match spec_sw_align(s, a, max_mismatches, max_indels) {
            Some(t) => if t.3 - t.2 >= min_match {
                Some(t.0)
            } else {
                None
            },
            None => None,
        }
    }
}

/// A found adapter offset never lies beyond the end of the read.
pub proof fn lemma_detect_pos_bound(
    s: Seq<u8>,
    a: Seq<u8>,
    min_match: int,
    max_mismatches: int,
    max_indels: int,
)
    ensures
        match spec_detect_adapter(s, a, min_match, max_mismatches, max_indels) {
            Some(pos) => 0 <= pos <= s.len(),
            None => true,
        },
{
    if s.len() > 0 && a.len() > 0 {
        let m = s.len() as int;
        let n = a.len() as int;
        assert(0 <= m * n) by (nonlinear_arith)
            requires
                m >= 0,
                n >= 0,
        ;
        lemma_sw_best_bounds(s, a, m * n);
        let best = sw_best(s, a, m * n);
        lemma_sw_backtrace_bounds(s, a, best.1, best.2);
    }
}

/// The read-relative start offset of an adapter match, or nothing when a
/// detection gate fails.
pub fn detect_adapter_position(
    sequence: &[u8],
    adapter: &[u8],
    min_match: usize,
    max_mismatches: usize,
    max_indels: usize,
) -> (r: Option<usize>)
    requires
        sequence@.len() <= 0x1000_0000,
        adapter@.len() <= 0x1000_0000,
    ensures
        match r {
            Some(p) => spec_detect_adapter(
                sequence@,
                adapter@,
                min_match as int,
                max_mismatches as int,
                max_indels as int,
            ) == Some(p as int),
            None => spec_detect_adapter(
                sequence@,
                adapter@,
                min_match as int,
                max_mismatches as int,
                max_indels as int,
            ) is None,
        },
{
    if adapter.len() < min_match {
        return None;
    }
    match smith_waterman_align(sequence, adapter, max_mismatches, max_indels) {
        Some(t) => {
            proof {
                lemma_sw_backtrace_bounds(sequence@, adapter@, t.1 as int, t.3 as int);
            }
            let aligned_length = t.3 - t.2;
            if aligned_length >= min_match {
                Some(t.0)
            } else {
                None
            }
        },
        None => None,
    }
}

} // verus!
