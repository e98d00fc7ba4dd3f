//! Histogram equalisation of a hue grid.
//!
//! Phase one bins every cell by the integer part of its value, phase two
//! accumulates the bins into a cumulative histogram, and phase three maps
//! each cell through the cumulative counts with linear interpolation on
//! the fractional part.  The per-cell output is pinned by [`hist_value`],
//! and [`lemma_hist_value_monotone`] proves the point of the exercise:
//! equalised values never decrease as raw values increase.

use crate::fixed::SCALE;
use crate::grid::{MAX_ITERS_LIMIT, MAX_PIXELS};
use vstd::arithmetic::div_mod::{lemma_div_by_multiple, lemma_div_is_ordered, lemma_div_pos_is_pos};
use vstd::arithmetic::mul::{lemma_mul_inequality, lemma_mul_upper_bound};
use vstd::prelude::*;

verus! {

/// The histogram bin of a hue value: its integer part.
pub open spec fn bucket(v: u64) -> int {
    (v as int) / (SCALE as int)
}

/// The grid as a sequence of sequences, the shape the counting
/// specifications work on.
pub open spec fn grid_seq(g: Seq<Vec<u64>>) -> Seq<Seq<u64>> {
    g.map_values(|c: Vec<u64>| c@)
}

/// How many values of one column fall in bins up to `k`.
pub open spec fn count_le_in(s: Seq<u64>, k: int) -> nat
    decreases s.len(),
{
    if s.len() == 0 {
        0
    } else {
        count_le_in(s.drop_last(), k) + if bucket(s.last()) <= k {
            1nat
        } else {
            0nat
        }
    }
}

/// How many cells of the whole grid fall in bins up to `k`: the
/// cumulative histogram.
pub open spec fn count_le_grid(g: Seq<Seq<u64>>, k: int) -> nat
    decreases g.len(),
{
    if g.len() == 0 {
        0
    } else {
        count_le_grid(g.drop_last(), k) + count_le_in(g.last(), k)
    }
}

/// How many values of one column fall in bin `k` exactly.
pub open spec fn count_eq_in(s: Seq<u64>, k: int) -> nat
    decreases s.len(),
{
    if s.len() == 0 {
        0
    } else {
        count_eq_in(s.drop_last(), k) + if bucket(s.last()) == k {
            1nat
        } else {
            0nat
        }
    }
}

/// How many cells of the whole grid fall in bin `k` exactly.
pub open spec fn count_eq_grid(g: Seq<Seq<u64>>, k: int) -> nat
    decreases g.len(),
{
    if g.len() == 0 {
        0
    } else {
        count_eq_grid(g.drop_last(), k) + count_eq_in(g.last(), k)
    }
}

/// Number of cells in the grid.
pub open spec fn total_cells(g: Seq<Seq<u64>>) -> nat
    decreases g.len(),
{
    if g.len() == 0 {
        0
    } else {
        total_cells(g.drop_last()) + g.last().len()
    }
}

/// The equalised value of a cell holding `v`: interpolate between the
/// cumulative counts of its bin and the next using the fractional part,
/// then divide by the number of points; the last bin is read off
/// directly.
pub open spec fn hist_value(g: Seq<Seq<u64>>, max_iters: int, total: int, v: u64) -> int {
    let k = bucket(v);
    let lo = count_le_grid(g, k) as int;
    if k < max_iters {
        let hi = count_le_grid(g, k + 1) as int;
        (lo * SCALE + (hi - lo) * ((v as int) % (SCALE as int))) / total
    } else {
        lo * SCALE / total
    }
}

proof fn lemma_count_le_in_mono(s: Seq<u64>, k1: int, k2: int)
    requires
        k1 <= k2,
    ensures
        count_le_in(s, k1) <= count_le_in(s, k2),
    decreases s.len(),
{
    if s.len() > 0 {
        lemma_count_le_in_mono(s.drop_last(), k1, k2);
    }
}

proof fn lemma_count_le_grid_mono(g: Seq<Seq<u64>>, k1: int, k2: int)
    requires
        k1 <= k2,
    ensures
        count_le_grid(g, k1) <= count_le_grid(g, k2),
    decreases g.len(),
{
    if g.len() > 0 {
        lemma_count_le_grid_mono(g.drop_last(), k1, k2);
        lemma_count_le_in_mono(g.last(), k1, k2);
    }
}

proof fn lemma_count_le_in_le_len(s: Seq<u64>, k: int)
    ensures
        count_le_in(s, k) <= s.len(),
    decreases s.len(),
{
    if s.len() > 0 {
        lemma_count_le_in_le_len(s.drop_last(), k);
    }
}

proof fn lemma_count_le_grid_le_total(g: Seq<Seq<u64>>, k: int)
    ensures
        count_le_grid(g, k) <= total_cells(g),
    decreases g.len(),
{
    if g.len() > 0 {
        lemma_count_le_grid_le_total(g.drop_last(), k);
        lemma_count_le_in_le_len(g.last(), k);
    }
}

proof fn lemma_count_eq_in_le_len(s: Seq<u64>, k: int)
    ensures
        count_eq_in(s, k) <= s.len(),
    decreases s.len(),
{
    if s.len() > 0 {
        lemma_count_eq_in_le_len(s.drop_last(), k);
    }
}

/// Splitting the cumulative count at `k`: everything up to `k` is
/// everything up to `k - 1` plus bin `k` itself.
proof fn lemma_count_split_in(s: Seq<u64>, k: int)
    ensures
        count_le_in(s, k) == count_le_in(s, k - 1) + count_eq_in(s, k),
    decreases s.len(),
{
    if s.len() > 0 {
        lemma_count_split_in(s.drop_last(), k);
    }
}

proof fn lemma_count_split_grid(g: Seq<Seq<u64>>, k: int)
    ensures
        count_le_grid(g, k) == count_le_grid(g, k - 1) + count_eq_grid(g, k),
    decreases g.len(),
{
    if g.len() > 0 {
        lemma_count_split_grid(g.drop_last(), k);
        lemma_count_split_in(g.last(), k);
    }
}

/// No bucket is negative, so nothing lies at or below bin -1.
proof fn lemma_count_le_in_neg(s: Seq<u64>, k: int)
    requires
        k < 0,
    ensures
        count_le_in(s, k) == 0,
    decreases s.len(),
{
    if s.len() > 0 {
        lemma_count_le_in_neg(s.drop_last(), k);
        lemma_div_pos_is_pos(s.last() as int, SCALE as int);
    }
}

proof fn lemma_count_le_grid_neg(g: Seq<Seq<u64>>, k: int)
    requires
        k < 0,
    ensures
        count_le_grid(g, k) == 0,
    decreases g.len(),
{
    if g.len() > 0 {
        lemma_count_le_grid_neg(g.drop_last(), k);
        lemma_count_le_in_neg(g.last(), k);
    }
}

/// Cells of a prefix, counted cell by cell.
proof fn lemma_total_cells_take_step(g: Seq<Seq<u64>>, x: int)
    requires
        0 <= x < g.len(),
    ensures
        total_cells(g.take(x + 1)) == total_cells(g.take(x)) + g[x].len(),
{
    assert(g.take(x + 1).drop_last() =~= g.take(x));
    assert(g.take(x + 1).last() == g[x]);
}

proof fn lemma_total_cells_take_le(g: Seq<Seq<u64>>, x: int)
    requires
        0 <= x <= g.len(),
    ensures
        total_cells(g.take(x)) <= total_cells(g),
    decreases g.len() - x,
{
    if x == g.len() {
        assert(g.take(x) =~= g);
    } else {
        lemma_total_cells_take_step(g, x);
        lemma_total_cells_take_le(g, x + 1);
    }
}

/// Equalisation is monotone: of two cells of the same grid, the one with
/// the larger raw value gets at least as large an equalised value, for a
/// fixed iteration budget and point count.
pub proof fn lemma_hist_value_monotone(
    g: Seq<Seq<u64>>,
    max_iters: int,
    total: int,
    v1: u64,
    v2: u64,
)
    requires
        v1 <= v2,
        total >= 1,
        bucket(v2) <= max_iters,
    ensures
        hist_value(g, max_iters, total, v1) <= hist_value(g, max_iters, total, v2),
{
    let k1 = bucket(v1);
    let k2 = bucket(v2);
    lemma_div_pos_is_pos(v1 as int, SCALE as int);
    lemma_div_is_ordered(v1 as int, v2 as int, SCALE as int);
    let lo1 = count_le_grid(g, k1) as int;
    let hi1 = count_le_grid(g, k1 + 1) as int;
    let lo2 = count_le_grid(g, k2) as int;
    let f1 = (v1 as int) % (SCALE as int);
    let f2 = (v2 as int) % (SCALE as int);
    lemma_count_le_grid_mono(g, k1, k1 + 1);
    if k1 == k2 {
        if k1 < max_iters {
            assert(f1 <= f2) by {
                vstd::arithmetic::div_mod::lemma_fundamental_div_mod(v1 as int, SCALE as int);
                vstd::arithmetic::div_mod::lemma_fundamental_div_mod(v2 as int, SCALE as int);
                vstd::arithmetic::div_mod::lemma_mod_bound(v1 as int, SCALE as int);
                vstd::arithmetic::div_mod::lemma_mod_bound(v2 as int, SCALE as int);
            }
            lemma_mul_inequality(f1, f2, hi1 - lo1);
            assert((hi1 - lo1) * f1 == f1 * (hi1 - lo1));
            assert((hi1 - lo1) * f2 == f2 * (hi1 - lo1));
            lemma_div_is_ordered(
                lo1 * SCALE + (hi1 - lo1) * f1,
                lo1 * SCALE + (hi1 - lo1) * f2,
                total,
            );
        }
    } else {
        // v1's interpolated value stays below the cumulative count at
        // k1 + 1, which the larger bucket has already passed.
        lemma_count_le_grid_mono(g, k1 + 1, k2);
        vstd::arithmetic::div_mod::lemma_mod_bound(v1 as int, SCALE as int);
        let top1 = if k1 < max_iters {
            hi1
        } else {
            lo1
        };
        if k1 < max_iters {
            lemma_mul_inequality(f1, SCALE as int, hi1 - lo1);
            assert((hi1 - lo1) * f1 == f1 * (hi1 - lo1));
            assert((hi1 - lo1) * (SCALE as int) == (SCALE as int) * (hi1 - lo1));
            assert(lo1 * SCALE + (hi1 - lo1) * f1 <= hi1 * SCALE) by {
                assert(lo1 * SCALE + (hi1 - lo1) * (SCALE as int) == hi1 * SCALE) by {
                    vstd::arithmetic::mul::lemma_mul_is_distributive_sub_other_way(
                        SCALE as int,
                        hi1,
                        lo1,
                    );
                }
            }
            lemma_div_is_ordered(lo1 * SCALE + (hi1 - lo1) * f1, hi1 * SCALE, total);
        }
        // hist_value(v1) <= hi1 * SCALE / total <= lo2 * SCALE / total <= hist_value(v2)
        lemma_mul_inequality(hi1, lo2, SCALE as int);
        lemma_div_is_ordered(hi1 * SCALE, lo2 * SCALE, total);
        if k2 < max_iters {
            let hi2 = count_le_grid(g, k2 + 1) as int;
            lemma_count_le_grid_mono(g, k2, k2 + 1);
            vstd::arithmetic::div_mod::lemma_mod_bound(v2 as int, SCALE as int);
            lemma_mul_inequality(0, f2, hi2 - lo2);
            assert((hi2 - lo2) * 0 == 0);
            assert((hi2 - lo2) * f2 == f2 * (hi2 - lo2));
            lemma_div_is_ordered(lo2 * SCALE, lo2 * SCALE + (hi2 - lo2) * f2, total);
        }
    }
}

/// Histogram equalisation: bin the grid by integer part, accumulate the
/// bins, then interpolate each cell through the cumulative histogram and
/// divide by `total_points`, mapping the grid into `[0, SCALE]`.
pub fn generate_hist_counts(escape_counts: &Vec<Vec<u64>>, max_iters: usize, total_points: usize) -> (r:
    Vec<Vec<u64>>)
    requires
        1 <= total_points <= MAX_PIXELS,
        max_iters <= MAX_ITERS_LIMIT,
        total_cells(grid_seq(escape_counts@)) <= total_points,
        forall|x: int, y: int|
            0 <= x < escape_counts@.len() && 0 <= y < escape_counts@[x]@.len()
                ==> #[trigger] escape_counts@[x]@[y] <= max_iters * SCALE,
    ensures
        r@.len() == escape_counts@.len(),
        forall|x: int| 0 <= x < r@.len() ==> #[trigger] r@[x]@.len() == escape_counts@[x]@.len(),
        forall|x: int, y: int|
            0 <= x < r@.len() && 0 <= y < r@[x]@.len() ==> #[trigger] r@[x]@[y] == hist_value(
                grid_seq(escape_counts@),
                max_iters as int,
                total_points as int,
                escape_counts@[x]@[y],
            ),
        forall|x: int, y: int|
            0 <= x < r@.len() && 0 <= y < r@[x]@.len() ==> #[trigger] r@[x]@[y] <= SCALE,
{
    let ghost gv = grid_seq(escape_counts@);
    // Phase 1: bin every cell by its integer part.
    let mut pixels_per_iter: Vec<usize> = Vec::new();
    let mut b: usize = 0;
    while b <= max_iters
        invariant
            b <= max_iters + 1,
            max_iters <= MAX_ITERS_LIMIT,
            pixels_per_iter@.len() == b,
            forall|k: int| 0 <= k < b ==> pixels_per_iter@[k] == 0,
        decreases max_iters + 1 - b,
    {
        pixels_per_iter.push(0);
        b = b + 1;
    }
    proof {
        assert forall|k: int| 0 <= k <= max_iters implies pixels_per_iter@[k]
            == count_eq_grid(gv.take(0), k) by {
            assert(gv.take(0) =~= Seq::<Seq<u64>>::empty());
        }
    }
    let mut x: usize = 0;
    while x < escape_counts.len()
        invariant
            x <= gv.len(),
            gv == grid_seq(escape_counts@),
            1 <= total_points <= MAX_PIXELS,
            max_iters <= MAX_ITERS_LIMIT,
            total_cells(gv) <= total_points,
            forall|i: int, y: int|
                0 <= i < gv.len() && 0 <= y < gv[i].len() ==> #[trigger] gv[i][y] <= max_iters
                    * SCALE,
            pixels_per_iter@.len() == max_iters + 1,
            forall|k: int|
                0 <= k <= max_iters ==> pixels_per_iter@[k] == count_eq_grid(gv.take(x as int), k),
        decreases gv.len() - x,
    {
        let col = &escape_counts[x];
        let mut y: usize = 0;
        while y < col.len()
            invariant
                y <= col@.len(),
                col@ == gv[x as int],
                x < gv.len(),
                gv == grid_seq(escape_counts@),
                1 <= total_points <= MAX_PIXELS,
                max_iters <= MAX_ITERS_LIMIT,
                total_cells(gv) <= total_points,
                forall|i: int, j: int|
                    0 <= i < gv.len() && 0 <= j < gv[i].len() ==> #[trigger] gv[i][j] <= max_iters
                        * SCALE,
                pixels_per_iter@.len() == max_iters + 1,
                forall|k: int|
                    0 <= k <= max_iters ==> pixels_per_iter@[k] == count_eq_grid(gv.take(x as int), k)
                        + count_eq_in(col@.take(y as int), k),
            decreases col@.len() - y,
        {
            let v: u64 = col[y];
            proof {
                assert(v <= max_iters * SCALE);
                lemma_div_is_ordered(v as int, (max_iters as int) * (SCALE as int), SCALE as int);
                lemma_div_by_multiple(max_iters as int, SCALE as int);
                lemma_div_pos_is_pos(v as int, SCALE as int);
            }
            let idx: usize = (v / SCALE) as usize;
            let cur: usize = pixels_per_iter[idx];
            proof {
                // The running count is strictly below the number of cells,
                // which is at most total_points: the increment cannot
                // overflow.
                lemma_count_eq_in_le_len(col@.take(y as int), idx as int);
                lemma_count_eq_grid_le_total_helper(gv, x as int, idx as int);
                lemma_total_cells_take_step(gv, x as int);
                lemma_total_cells_take_le(gv, x as int + 1);
            }
            pixels_per_iter.set(idx, cur + 1);
            proof {
                assert(col@.take(y as int + 1).drop_last() =~= col@.take(y as int));
                assert(col@.take(y as int + 1).last() == col@[y as int]);
                assert(bucket(v) == idx);
                assert forall|k: int| 0 <= k <= max_iters implies pixels_per_iter@[k]
                    == count_eq_grid(gv.take(x as int), k) + count_eq_in(
                    col@.take(y as int + 1),
                    k,
                ) by {
                    assert(count_eq_in(col@.take(y as int + 1), k) == count_eq_in(
                        col@.take(y as int),
                        k,
                    ) + if bucket(col@[y as int]) == k {
                        1nat
                    } else {
                        0nat
                    });
                }
            }
            y = y + 1;
        }
        proof {
            assert(col@.take(col@.len() as int) =~= col@);
            assert(gv.take(x as int + 1).drop_last() =~= gv.take(x as int));
            assert(gv.take(x as int + 1).last() == gv[x as int]);
        }
        x = x + 1;
    }
    proof {
        assert(gv.take(gv.len() as int) =~= gv);
    }
    // Phase 2: cumulative histogram.
    let mut iter_hist: Vec<u64> = Vec::new();
    let mut sum: u64 = 0;
    let mut k: usize = 0;
    proof {
        lemma_count_le_grid_neg(gv, -1);
    }
    while k <= max_iters
        invariant
            k <= max_iters + 1,
            max_iters <= MAX_ITERS_LIMIT,
            1 <= total_points <= MAX_PIXELS,
            total_cells(gv) <= total_points,
            gv == grid_seq(escape_counts@),
            pixels_per_iter@.len() == max_iters + 1,
            forall|j: int| 0 <= j <= max_iters ==> pixels_per_iter@[j] == count_eq_grid(gv, j),
            iter_hist@.len() == k,
            forall|j: int| 0 <= j < k ==> iter_hist@[j] == count_le_grid(gv, j),
            sum == count_le_grid(gv, k as int - 1),
        decreases max_iters + 1 - k,
    {
        let c: usize = pixels_per_iter[k];
        proof {
            lemma_count_split_grid(gv, k as int);
            lemma_count_le_grid_le_total(gv, k as int);
        }
        sum = sum + (c as u64);
        iter_hist.push(sum);
        k = k + 1;
    }
    // Phase 3: interpolate every cell through the cumulative histogram.
    let mut out: Vec<Vec<u64>> = Vec::new();
    let mut x: usize = 0;
    while x < escape_counts.len()
        invariant
            x <= gv.len(),
            gv == grid_seq(escape_counts@),
            1 <= total_points <= MAX_PIXELS,
            max_iters <= MAX_ITERS_LIMIT,
            total_cells(gv) <= total_points,
            forall|i: int, y: int|
                0 <= i < gv.len() && 0 <= y < gv[i].len() ==> #[trigger] gv[i][y] <= max_iters
                    * SCALE,
            iter_hist@.len() == max_iters + 1,
            forall|j: int| 0 <= j <= max_iters ==> iter_hist@[j] == count_le_grid(gv, j),
            out@.len() == x,
            forall|i: int| 0 <= i < x ==> #[trigger] out@[i]@.len() == gv[i].len(),
            forall|i: int, y: int|
                0 <= i < x && 0 <= y < out@[i]@.len() ==> #[trigger] out@[i]@[y] == hist_value(
                    gv,
                    max_iters as int,
                    total_points as int,
                    gv[i][y],
                ),
            forall|i: int, y: int|
                0 <= i < x && 0 <= y < out@[i]@.len() ==> #[trigger] out@[i]@[y] <= SCALE,
        decreases gv.len() - x,
    {
        let col = &escape_counts[x];
        let mut newcol: Vec<u64> = Vec::new();
        let mut y: usize = 0;
        while y < col.len()
            invariant
                y <= col@.len(),
                col@ == gv[x as int],
                x < gv.len(),
                gv == grid_seq(escape_counts@),
                1 <= total_points <= MAX_PIXELS,
                max_iters <= MAX_ITERS_LIMIT,
                total_cells(gv) <= total_points,
                forall|i: int, j: int|
                    0 <= i < gv.len() && 0 <= j < gv[i].len() ==> #[trigger] gv[i][j] <= max_iters
                        * SCALE,
                iter_hist@.len() == max_iters + 1,
                forall|j: int| 0 <= j <= max_iters ==> iter_hist@[j] == count_le_grid(gv, j),
                newcol@.len() == y,
                forall|j: int|
                    0 <= j < y ==> #[trigger] newcol@[j] == hist_value(
                        gv,
                        max_iters as int,
                        total_points as int,
                        gv[x as int][j],
                    ),
                forall|j: int| 0 <= j < y ==> #[trigger] newcol@[j] <= SCALE,
            decreases col@.len() - y,
        {
            let v: u64 = col[y];
            proof {
                assert(v <= max_iters * SCALE);
                lemma_div_is_ordered(v as int, (max_iters as int) * (SCALE as int), SCALE as int);
                lemma_div_by_multiple(max_iters as int, SCALE as int);
                lemma_div_pos_is_pos(v as int, SCALE as int);
            }
            let kk: usize = (v / SCALE) as usize;
            let lo: u64 = iter_hist[kk];
            proof {
                lemma_count_le_grid_le_total(gv, kk as int);
            }
            let value: u64 = if kk < max_iters {
                let hi: u64 = iter_hist[kk + 1];
                let frac: u64 = v % SCALE;
                proof {
                    lemma_count_le_grid_mono(gv, kk as int, kk as int + 1);
                    lemma_count_le_grid_le_total(gv, kk as int + 1);
                    lemma_mul_upper_bound(
                        hi as int - lo as int,
                        MAX_PIXELS as int,
                        frac as int,
                        SCALE as int - 1,
                    );
                    lemma_mul_inequality(frac as int, SCALE as int, hi as int - lo as int);
                    assert((hi as int - lo as int) * (frac as int) == (frac as int) * (hi as int
                        - lo as int));
                    assert((hi as int - lo as int) * (SCALE as int) == (SCALE as int) * (hi as int
                        - lo as int));
                    assert(lo * SCALE + (hi as int - lo as int) * (SCALE as int) == hi as int
                        * SCALE) by {
                        vstd::arithmetic::mul::lemma_mul_is_distributive_sub_other_way(
                            SCALE as int,
                            hi as int,
                            lo as int,
                        );
                    }
                    lemma_mul_inequality(hi as int, total_points as int, SCALE as int);
                    lemma_div_is_ordered(
                        lo * SCALE + (hi as int - lo as int) * (frac as int),
                        (total_points as int) * (SCALE as int),
                        total_points as int,
                    );
                    lemma_div_by_multiple(SCALE as int, total_points as int);
                    assert((SCALE as int) * (total_points as int) == (total_points as int) * (
                    SCALE as int));
                    lemma_div_pos_is_pos(
                        lo * SCALE + (hi as int - lo as int) * (frac as int),
                        total_points as int,
                    );
                }
                (lo * SCALE + (hi - lo) * frac) / (total_points as u64)
            } else {
                proof {
                    lemma_mul_inequality(lo as int, total_points as int, SCALE as int);
                    lemma_div_is_ordered(
                        lo * SCALE,
                        (total_points as int) * (SCALE as int),
                        total_points as int,
                    );
                    lemma_div_by_multiple(SCALE as int, total_points as int);
                    assert((SCALE as int) * (total_points as int) == (total_points as int) * (
                    SCALE as int));
                    lemma_div_pos_is_pos(lo * SCALE, total_points as int);
                }
                lo * SCALE / (total_points as u64)
            };
            newcol.push(value);
            y = y + 1;
        }
        out.push(newcol);
        x = x + 1;
    }
    out
}

/// The exact-bin count of a processed prefix stays below the number of
/// cells seen so far, hence below the grid's total.
proof fn lemma_count_eq_grid_le_total_helper(g: Seq<Seq<u64>>, x: int, k: int)
    requires
        0 <= x <= g.len(),
    ensures
        count_eq_grid(g.take(x), k) <= total_cells(g.take(x)),
    decreases x,
{
    if x > 0 {
        assert(g.take(x).drop_last() =~= g.take(x - 1));
        lemma_count_eq_grid_le_total_helper(g, x - 1, k);
        lemma_count_eq_in_le_len(g.take(x).last(), k);
    }
}

} // verus!
