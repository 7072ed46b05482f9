//! Maximum path sum through a number pyramid: starting from the apex,
//! each step descends to one of the two adjacent numbers of the next
//! row; the result is the largest sum any such path can collect.

use vstd::prelude::*;

verus! {

/// The largest value one cell of the pyramid may hold, so that every
/// path sum fits in a machine word.
pub const MAX_PYRAMID_VALUE: u64 = 0xffff_ffff;

/// The largest number of rows accepted, for the same reason.
pub const MAX_PYRAMID_HEIGHT: usize = 0x7fff_ffff;

/// The rows as mathematical sequences.
pub open spec fn tri_view(rows: Seq<Vec<u64>>) -> Seq<Seq<u64>> {
    rows.map_values(|v: Vec<u64>| v@)
}

/// Row `i` has `i + 1` entries.
pub open spec fn triangular(tri: Seq<Seq<u64>>) -> bool {
    forall|i: int| 0 <= i < tri.len() ==> (#[trigger] tri[i]).len() == i + 1
}

/// Every entry is small enough that path sums cannot overflow.
pub open spec fn values_bounded(tri: Seq<Seq<u64>>) -> bool {
    forall|i: int, j: int|
        0 <= i < tri.len() && 0 <= j < tri[i].len() ==> #[trigger] tri[i][j]
            <= MAX_PYRAMID_VALUE
}

/// The best path sum from the apex down to cell `j` of row `i`.
pub open spec fn best_to(tri: Seq<Seq<u64>>, i: int, j: int) -> int
    decreases i,
{
    if i <= 0 {
        tri[0][j] as int
    } else if j <= 0 {
        tri[i][0] + best_to(tri, i - 1, 0)
    } else if j >= i {
        tri[i][i] + best_to(tri, i - 1, i - 1)
    } else if best_to(tri, i - 1, j - 1) >= best_to(tri, i - 1, j) {
        tri[i][j] + best_to(tri, i - 1, j - 1)
    } else {
        tri[i][j] + best_to(tri, i - 1, j)
    }
}

/// The best path sum to any of the cells `0 ..= j` of row `i`.
pub open spec fn row_best(tri: Seq<Seq<u64>>, i: int, j: int) -> int
    decreases j,
{
    if j <= 0 {
        best_to(tri, i, 0)
    } else if best_to(tri, i, j) >= row_best(tri, i, j - 1) {
        best_to(tri, i, j)
    } else {
        row_best(tri, i, j - 1)
    }
}

/// The maximum path sum of the whole pyramid: the best path to any cell
/// of the bottom row.
pub open spec fn pyramid_best(tri: Seq<Seq<u64>>) -> int {
    row_best(tri, tri.len() - 1, tri.len() - 1)
}

/// Any best path sum down to row `i` collects at most `i + 1` bounded
/// values.
proof fn lemma_best_to_bound(tri: Seq<Seq<u64>>, i: int, j: int)
    requires
        triangular(tri),
        values_bounded(tri),
        0 <= i < tri.len(),
        0 <= j <= i,
    ensures
        0 <= best_to(tri, i, j) <= (i + 1) * (MAX_PYRAMID_VALUE as int),
    decreases i,
{
    let m = MAX_PYRAMID_VALUE as int;
    if i == 0 {
        assert(best_to(tri, 0, j) == tri[0][j]);
    } else {
        if j <= 0 {
            lemma_best_to_bound(tri, i - 1, 0);
        } else if j >= i {
            lemma_best_to_bound(tri, i - 1, i - 1);
        } else {
            lemma_best_to_bound(tri, i - 1, j - 1);
            lemma_best_to_bound(tri, i - 1, j);
        }
        assert((i + 1) * m == i * m + m) by (nonlinear_arith);
    }
}

/// Computes the maximum path sum of a pyramid of numbers by one pass of
/// dynamic programming, row by row.
pub fn max_path_pyramid(rows: &Vec<Vec<u64>>) -> (r: u64)
    requires
        rows@.len() >= 1,
        rows@.len() <= MAX_PYRAMID_HEIGHT,
        triangular(tri_view(rows@)),
        values_bounded(tri_view(rows@)),
    ensures
        r as int == pyramid_best(tri_view(rows@)),
{
    let ghost tri = tri_view(rows@);
    let height = rows.len();
    let mut prev: Vec<u64> = Vec::new();
    proof {
        assert(tri[0] == rows@[0]@);
        assert(tri[0].len() == 1);
    }
    prev.push(rows[0][0]);
    proof {
        assert(prev@[0] == best_to(tri, 0, 0));
    }
    let mut i: usize = 1;
    while i < height
        invariant
            1 <= i <= height,
            height == rows@.len(),
            height <= MAX_PYRAMID_HEIGHT,
            tri == tri_view(rows@),
            triangular(tri),
            values_bounded(tri),
            prev@.len() == i,
            forall|k: int| 0 <= k < i ==> prev@[k] as int == best_to(tri, i - 1, k),
        decreases height - i,
    {
        let row = &rows[i];
        proof {
            assert(tri[i as int] == rows@[i as int]@);
        }
        let mut cur: Vec<u64> = Vec::new();
        let mut j: usize = 0;
        while j <= i
            invariant
                1 <= i < height,
                j <= i + 1,
                height == rows@.len(),
                height <= MAX_PYRAMID_HEIGHT,
                tri == tri_view(rows@),
                triangular(tri),
                values_bounded(tri),
                row@ == tri[i as int],
                row@.len() == i + 1,
                prev@.len() == i,
                forall|k: int| 0 <= k < i ==> prev@[k] as int == best_to(tri, i - 1, k),
                cur@.len() == j,
                forall|k: int| 0 <= k < j ==> cur@[k] as int == best_to(tri, i as int, k),
            decreases i + 1 - j,
        {
            proof {
                lemma_best_to_bound(tri, i as int, j as int);
                if j > 0 {
                    lemma_best_to_bound(tri, i - 1, j - 1);
                }
                if j < i {
                    lemma_best_to_bound(tri, i - 1, j as int);
                }
                assert((i + 1) * (MAX_PYRAMID_VALUE as int) <= (MAX_PYRAMID_HEIGHT as int)
                    * (MAX_PYRAMID_VALUE as int)) by (nonlinear_arith)
                    requires
                        1 <= i + 1 <= MAX_PYRAMID_HEIGHT as int,
                ;
            }
            let v: u64;
            if j == 0 {
                v = row[j] + prev[0];
            } else if j == i {
                v = row[j] + prev[j - 1];
            } else if prev[j - 1] >= prev[j] {
                v = row[j] + prev[j - 1];
            } else {
                v = row[j] + prev[j];
            }
            cur.push(v);
            j += 1;
        }
        prev = cur;
        i += 1;
    }
    let mut best = prev[0];
    let mut j: usize = 1;
    while j < height
        invariant
            1 <= j <= height,
            height == rows@.len(),
            tri == tri_view(rows@),
            prev@.len() == height,
            forall|k: int| 0 <= k < height ==> prev@[k] as int == best_to(tri, height - 1, k),
            best as int == row_best(tri, height - 1, j - 1),
        decreases height - j,
    {
        if prev[j] > best {
            best = prev[j];
        }
        j += 1;
    }
    best
}

} // verus!
