//! The mask-level quantification pipeline: from the three thresholded
//! channel masks to per-cell regions, skeletons, geodesic histograms,
//! Scholl rings and activation overlaps. The surrounding application owns
//! the floating-point work on either side: channel normalization and
//! thresholding before this stage, regressions and averaging after it.

use vstd::prelude::*;
use crate::types::{
    connected, connected_within, flat, in_bounds, lemma_flat_in_range, with_seed, Matrix, Pnt,
};
use crate::binary::{
    bfs_closed, branch_length, cell_mask, conncomps, count_branches, perimeter, skel, sobel_c,
    sobel_r, sum_hist, valid_labeling,
};
use crate::helpers::{nearest, scholl_rings, sq_dist};
use crate::morph::{binary_opening_mask, opened};
use crate::regions::{
    centroids, decomposition_of, floodfill, grown_closed, label2regions, label_at,
    lemma_centroid_in_bounds, regions2label, sum_cols, sum_rows,
};

verus! {

broadcast use {
    crate::types::lemma_flat_injective,
    crate::types::lemma_in_bounds_flat,
    vstd::seq_lib::group_seq_properties,
};

/// Number of erosion and dilation rounds that open the soma mask.
pub const SOMA_OPEN_ITERATIONS: usize = 5;

/// Number of positively labeled cells of a label grid.
pub open spec fn count_pos(v: Seq<u32>) -> nat
    decreases v.len(),
{
    if v.len() == 0 {
        0
    } else {
        count_pos(v.drop_last()) + if v.last() > 0 {
            1nat
        } else {
            0nat
        }
    }
}

/// Number of members of `region` that the label grid marks positive.
pub open spec fn overlap_count(region: Seq<Pnt>, label: Seq<u32>, cols: usize) -> nat
    decreases region.len(),
{
    if region.len() == 0 {
        0
    } else {
        overlap_count(region.drop_last(), label, cols) + if label[flat(region.last(), cols)]
            > 0 {
            1nat
        } else {
            0nat
        }
    }
}

/// Distance-weighted bucket sum of a histogram: total hop length of the
/// region it counts.
pub open spec fn wsum(h: Seq<usize>) -> int
    decreases h.len(),
{
    if h.len() == 0 {
        0
    } else {
        wsum(h.drop_last()) + (h.len() - 1) * h.last()
    }
}

/// The weighted sum is nonnegative and at most the deepest bucket index
/// times the plain sum.
proof fn lemma_wsum_bound(h: Seq<usize>)
    ensures
        0 <= wsum(h),
        h.len() >= 1 ==> wsum(h) <= (h.len() - 1) * sum_hist(h),
    decreases h.len(),
{
    if h.len() >= 1 {
        lemma_wsum_bound(h.drop_last());
        crate::binary::lemma_sum_hist_nonneg(h.drop_last());
        if h.len() >= 2 {
            assert((h.len() - 2) * sum_hist(h.drop_last()) + (h.len() - 1) * h.last()
                <= (h.len() - 1) * (sum_hist(h.drop_last()) + h.last())) by (nonlinear_arith)
                requires
                    sum_hist(h.drop_last()) >= 0,
                    h.last() >= 0,
            ;
        }
    }
}

/// Does the region fall below the blob-size cap?
pub open spec fn smaller_than(max_size: usize) -> spec_fn(Vec<Pnt>) -> bool {
    |v: Vec<Pnt>| v@.len() < max_size
}

/// Keeps the regions strictly smaller than `max_size`, in order.
#[verifier::loop_isolation(false)]
pub fn filter_smaller(regions: Vec<Vec<Pnt>>, max_size: usize) -> (out: Vec<Vec<Pnt>>)
    ensures
        out@ == regions@.filter(smaller_than(max_size)),
{
    let ghost whole = regions@;
    let ghost pred: spec_fn(Vec<Pnt>) -> bool = smaller_than(max_size);
    let mut out: Vec<Vec<Pnt>> = Vec::new();
    let mut rest = regions;
    let ghost mut done: int = 0;
    proof {
        assert(whole.take(0).filter(pred) =~= Seq::<Vec<Pnt>>::empty());
        assert(rest@ =~= whole.skip(0));
    }
    while rest.len() > 0
        invariant
            0 <= done <= whole.len(),
            rest@ =~= whole.skip(done),
            out@ == whole.take(done).filter(pred),
        decreases rest@.len(),
    {
        let region = rest.remove(0);
        proof {
            assert(region == whole[done]);
            assert(rest@ =~= whole.skip(done + 1));
            assert(whole.take(done + 1) =~= whole.take(done).push(whole[done]));
            whole.take(done).lemma_filter_push(whole[done], pred);
        }
        if region.len() < max_size {
            out.push(region);
        }
        proof {
            done = done + 1;
            assert(pred(whole[done - 1]) == (whole[done - 1]@.len() < max_size));
            assert(out@ =~= whole.take(done).filter(pred));
        }
    }
    proof {
        assert(whole.take(whole.len() as int) =~= whole);
    }
    out
}

/// Intersects the skeleton with the cell labeling: a skeleton pixel keeps
/// its cell's label, everything else is background.
pub fn mask_label(skeleton: &Matrix<bool>, segmented: &Matrix<u32>) -> (out: Matrix<u32>)
    requires
        skeleton.wf(),
        segmented.wf(),
        skeleton.rows == segmented.rows,
        skeleton.cols == segmented.cols,
    ensures
        out.wf(),
        out.rows == skeleton.rows,
        out.cols == skeleton.cols,
        forall|p: Pnt| in_bounds(p, skeleton.rows, skeleton.cols)
            ==> out@[flat(p, skeleton.cols)] == (if skeleton@[flat(p, skeleton.cols)] {
                segmented@[flat(p, skeleton.cols)]
            } else {
                0u32
            }),
{
    let rows = skeleton.rows;
    let cols = skeleton.cols;
    let mut out = Matrix::<u32>::filled(rows, cols, 0);
    let mut r: usize = 0;
    while r < rows
        invariant
            r <= rows,
            out.wf(),
            out.rows == rows,
            out.cols == cols,
            skeleton.wf(),
            segmented.wf(),
            rows == skeleton.rows && cols == skeleton.cols,
            rows == segmented.rows && cols == segmented.cols,
            forall|p: Pnt| in_bounds(p, rows, cols) && p.0 < r
                ==> out@[flat(p, cols)] == (if skeleton@[flat(p, cols)] {
                    segmented@[flat(p, cols)]
                } else {
                    0u32
                }),
            forall|p: Pnt| in_bounds(p, rows, cols) && p.0 >= r ==> out@[flat(p, cols)] == 0,
        decreases rows - r,
    {
        let mut c: usize = 0;
        while c < cols
            invariant
                r < rows,
                c <= cols,
                out.wf(),
                out.rows == rows,
                out.cols == cols,
                skeleton.wf(),
                segmented.wf(),
                rows == skeleton.rows && cols == skeleton.cols,
                rows == segmented.rows && cols == segmented.cols,
                forall|p: Pnt| in_bounds(p, rows, cols) && (p.0 < r || (p.0 == r && p.1 < c))
                    ==> out@[flat(p, cols)] == (if skeleton@[flat(p, cols)] {
                        segmented@[flat(p, cols)]
                    } else {
                        0u32
                    }),
                forall|p: Pnt| in_bounds(p, rows, cols) && (p.0 > r || (p.0 == r && p.1 >= c))
                    ==> out@[flat(p, cols)] == 0,
            decreases cols - c,
        {
            let p: Pnt = (r, c);
            proof {
                lemma_flat_in_range(p, rows, cols);
            }
            if skeleton.get(p) {
                out.set(p, segmented.get(p));
            }
            c += 1;
        }
        r += 1;
    }
    out
}

/// Everything the mask-level pipeline produces for one run.
pub struct MaskAnalysis {
    /// Number of cells: one per soma component.
    pub cell_count: usize,
    /// Soma centroids; marker `i` is cell `i`'s identity everywhere below.
    pub markers: Vec<Pnt>,
    /// The opened soma mask.
    pub soma_mask: Matrix<bool>,
    /// Soma components of the opened mask.
    pub soma_regions: Vec<Vec<Pnt>>,
    /// Activation blobs below the size cap.
    pub cd68_regions: Vec<Vec<Pnt>>,
    /// Label grid of the kept activation blobs.
    pub cd68_label: Matrix<u32>,
    /// Number of activation-labeled pixels.
    pub cd68_area: usize,
    /// Grown region of each cell.
    pub segmented_regions: Vec<Vec<Pnt>>,
    /// Label grid of the grown regions.
    pub segmented: Matrix<u32>,
    /// Skeleton of the branch mask.
    pub skeleton: Matrix<bool>,
    /// Edge image of the cell labeling.
    pub poly: Matrix<u32>,
    /// Skeleton junction pixels.
    pub junctions: Matrix<bool>,
    /// Skeleton pixels labeled by their cell.
    pub labelled_skeleton: Matrix<u32>,
    /// Skeleton pixels of each label value.
    pub skelly_regions: Vec<Vec<Pnt>>,
    /// Per cell, the skeleton pixel nearest its soma centroid, if any.
    pub skelly_markers: Vec<Option<Pnt>>,
    /// Geodesic hop distance from each cell's seed.
    pub length_grid: Matrix<usize>,
    /// Per cell, pixel count by geodesic distance.
    pub histograms: Vec<Vec<usize>>,
    /// Ghost record of the pixels each cell's geodesic pass claimed.
    pub bfs_claims: Ghost<Seq<Seq<Pnt>>>,
    /// Per seeded cell, (weighted bucket sum, bucket sum) of its histogram.
    pub length_sums: Vec<Option<(u64, usize)>>,
    /// Per cell, its Scholl rings: (squared radius, pixel count) pairs.
    pub rings: Vec<Vec<(usize, usize)>>,
    /// Per cell, (activation-labeled members, region size).
    pub overlaps: Vec<(usize, usize)>,
}


/// Prefixes only grow the positive-label count and the histogram sums.
proof fn lemma_count_pos_prefix(v: Seq<u32>, t: int)
    requires
        0 <= t <= v.len(),
    ensures
        0 <= count_pos(v.take(t)) <= count_pos(v),
    decreases v.len() - t,
{
    if t == v.len() {
        assert(v.take(t) =~= v);
        lemma_count_pos_nonneg(v);
    } else {
        lemma_count_pos_prefix(v, t + 1);
        assert(v.take(t + 1).drop_last() =~= v.take(t));
        assert(v.take(t + 1).last() == v[t]);
        lemma_count_pos_nonneg(v.take(t));
    }
}

/// Positive-label counts are nonnegative and bounded by the length.
proof fn lemma_count_pos_nonneg(v: Seq<u32>)
    ensures
        0 <= count_pos(v) <= v.len(),
    decreases v.len(),
{
    if v.len() > 0 {
        lemma_count_pos_nonneg(v.drop_last());
    }
}

/// An all-zero label grid counts no positive pixel.
proof fn lemma_count_pos_zero(v: Seq<u32>)
    requires
        forall|t: int| 0 <= t < v.len() ==> v[t] == 0,
    ensures
        count_pos(v) == 0,
    decreases v.len(),
{
    if v.len() > 0 {
        lemma_count_pos_zero(v.drop_last());
    }
}

/// An all-zero label grid overlaps no region member.
proof fn lemma_overlap_zero(region: Seq<Pnt>, label: Seq<u32>, cols: usize)
    requires
        forall|t: int| 0 <= t < label.len() ==> label[t] == 0,
        forall|k: int| 0 <= k < region.len() ==> 0 <= flat(#[trigger] region[k], cols) < label.len(),
    ensures
        overlap_count(region, label, cols) == 0,
    decreases region.len(),
{
    if region.len() > 0 {
        lemma_overlap_zero(region.drop_last(), label, cols);
    }
}

/// Number of positively labeled pixels of the grid.
#[verifier::loop_isolation(false)]
pub fn count_positives(label: &Matrix<u32>) -> (n: usize)
    requires
        label.wf(),
    ensures
        n == count_pos(label@),
{
    let rows = label.rows;
    let cols = label.cols;
    let mut n: usize = 0;
    let mut r: usize = 0;
    while r < rows
        invariant
            r <= rows,
            n == count_pos(label@.take(r as int * cols as int)),
        decreases rows - r,
    {
        let mut c: usize = 0;
        while c < cols
            invariant
                r < rows,
                c <= cols,
                n == count_pos(label@.take(r as int * cols as int + c as int)),
            decreases cols - c,
        {
            let p: Pnt = (r, c);
            proof {
                lemma_flat_in_range(p, rows, cols);
                assert(flat(p, cols) == r as int * cols as int + c as int);
                assert(label@.take(flat(p, cols) + 1)
                    =~= label@.take(flat(p, cols)).push(label@[flat(p, cols)]));
                assert(label@.take(flat(p, cols) + 1).drop_last()
                    =~= label@.take(flat(p, cols)));
                lemma_count_pos_prefix(label@, flat(p, cols) + 1);
                lemma_count_pos_nonneg(label@.take(flat(p, cols) + 1));
            }
            if label.get(p) > 0 {
                n += 1;
            }
            c += 1;
        }
        proof {
            assert(r as int * cols as int + cols as int == (r + 1) as int * cols as int)
                by (nonlinear_arith);
        }
        r += 1;
    }
    proof {
        assert(label@.take(rows as int * cols as int) =~= label@);
    }
    n
}

/// Histogram prefix sums only grow.
proof fn lemma_hist_prefix(h: Seq<usize>, t: int)
    requires
        0 <= t <= h.len(),
    ensures
        0 <= sum_hist(h.take(t)) <= sum_hist(h),
        0 <= wsum(h.take(t)),
    decreases h.len() - t,
{
    if t == h.len() {
        assert(h.take(t) =~= h);
        crate::binary::lemma_sum_hist_nonneg(h);
        lemma_wsum_bound(h);
    } else {
        lemma_hist_prefix(h, t + 1);
        assert(h.take(t + 1).drop_last() =~= h.take(t));
        assert(h.take(t + 1).last() == h[t]);
        crate::binary::lemma_sum_hist_nonneg(h.take(t));
        lemma_wsum_bound(h.take(t));
    }
}

/// The distance-weighted and plain bucket sums of one histogram.
#[verifier::loop_isolation(false)]
fn weighted_sums(h: &Vec<usize>, limit: usize) -> (r: (u64, usize))
    requires
        sum_hist(h@) <= limit,
        h@.len() <= limit + 1,
        limit <= 0x8000_0000,
    ensures
        r.0 == wsum(h@),
        r.1 == sum_hist(h@),
{
    let n = h.len();
    let mut w: u64 = 0;
    let mut s: usize = 0;
    let mut d: usize = 0;
    while d < n
        invariant
            d <= n,
            w == wsum(h@.take(d as int)),
            s == sum_hist(h@.take(d as int)),
        decreases n - d,
    {
        proof {
            assert(h@.take(d as int + 1).drop_last() =~= h@.take(d as int));
            assert(h@.take(d as int + 1).last() == h@[d as int]);
            lemma_hist_prefix(h@, d as int);
            lemma_hist_prefix(h@, d as int + 1);
            lemma_wsum_bound(h@.take(d as int + 1));
            lemma_wsum_bound(h@);
            assert(wsum(h@) <= (h@.len() - 1) * sum_hist(h@) || h@.len() == 0);
            assert(h@.len() >= 1 ==> (h@.len() - 1) * sum_hist(h@) <= limit * limit)
                by (nonlinear_arith)
                requires
                    h@.len() <= limit + 1,
                    0 <= sum_hist(h@) <= limit,
            ;
            assert(limit * limit <= 0x4000_0000_0000_0000) by (nonlinear_arith)
                requires
                    limit <= 0x8000_0000,
            ;
            assert(wsum(h@.take(d as int + 1)) <= wsum(h@)) by {
                lemma_wsum_prefix_step(h@, d as int + 1);
            }
            assert(w + d * h@[d as int] == wsum(h@.take(d as int + 1)));
            assert(wsum(h@) <= 0x4000_0000_0000_0000);
            assert(d * h@[d as int] <= 0x4000_0000_0000_0000);
        }
        w = w + (d as u64) * (h[d] as u64);
        s = s + h[d];
        d += 1;
    }
    proof {
        assert(h@.take(n as int) =~= h@);
    }
    (w, s)
}

/// A histogram's weighted prefix sums are bounded by the whole.
proof fn lemma_wsum_prefix_step(h: Seq<usize>, t: int)
    requires
        0 <= t <= h.len(),
    ensures
        wsum(h.take(t)) <= wsum(h),
    decreases h.len() - t,
{
    if t == h.len() {
        assert(h.take(t) =~= h);
    } else {
        lemma_wsum_prefix_step(h, t + 1);
        assert(h.take(t + 1).drop_last() =~= h.take(t));
        assert(h.take(t + 1).last() == h[t]);
    }
}

/// Number of members of the region that the label grid marks positive.
#[verifier::loop_isolation(false)]
fn region_overlap(region: &Vec<Pnt>, label: &Matrix<u32>) -> (n: usize)
    requires
        label.wf(),
        forall|k: int| 0 <= k < region@.len()
            ==> in_bounds(#[trigger] region@[k], label.rows, label.cols),
    ensures
        n == overlap_count(region@, label@, label.cols),
{
    let cols = label.cols;
    let m = region.len();
    let mut n: usize = 0;
    let mut t: usize = 0;
    while t < m
        invariant
            t <= m,
            n <= t,
            n == overlap_count(region@.take(t as int), label@, cols),
        decreases m - t,
    {
        let p = region[t];
        proof {
            lemma_flat_in_range(p, label.rows, cols);
            assert(region@.take(t as int + 1).drop_last() =~= region@.take(t as int));
            assert(region@.take(t as int + 1).last() == region@[t as int]);
        }
        if label.get(p) > 0 {
            n += 1;
        }
        t += 1;
    }
    proof {
        assert(region@.take(m as int) =~= region@);
    }
    n
}


/// Runs the mask-level pipeline: labels and size-filters the activation
/// mask, opens the soma mask and labels its components, grows one region
/// per soma centroid through the branch mask, skeletonizes, intersects
/// skeleton with the cell labeling, runs the per-cell geodesic histogram
/// pass from the skeleton point nearest each soma centroid, groups each
/// cell's Scholl rings, and counts each cell's activation overlap.
///
/// The contract fixes the marker-index correspondence (cell `i` is soma
/// component `i`, label `i + 1` throughout), pins every per-pixel grid to
/// the spec of the stage that made it, and carries the degenerate-input
/// laws: an all-background soma mask yields zero cells, and an
/// all-background activation mask yields zero activation area and zero
/// overlap for every cell.
#[verifier::loop_isolation(false)]
#[verifier::rlimit(100)]
pub fn analyze_masks(
    cd68_th: &Matrix<bool>,
    soma_th: &Matrix<bool>,
    branches: &Matrix<bool>,
    max_co_marker_size: usize,
) -> (r: MaskAnalysis)
    requires
        cd68_th.wf(),
        soma_th.wf(),
        branches.wf(),
        soma_th.rows == cd68_th.rows && soma_th.cols == cd68_th.cols,
        branches.rows == cd68_th.rows && branches.cols == cd68_th.cols,
        cd68_th.rows * cd68_th.cols <= 0x8000_0000,
        cd68_th.rows * cd68_th.cols * (cd68_th.rows * cd68_th.cols) * 2 <= usize::MAX,
        cd68_th.rows * cd68_th.cols * cd68_th.rows <= usize::MAX,
        cd68_th.rows * cd68_th.cols * cd68_th.cols <= usize::MAX,
    ensures
        r.cell_count == r.markers@.len(),
        r.markers@.len() == r.soma_regions@.len(),
        r.segmented_regions@.len() == r.cell_count,
        r.skelly_markers@.len() == r.cell_count,
        r.histograms@.len() == r.cell_count,
        r.length_sums@.len() == r.cell_count,
        r.rings@.len() == r.cell_count,
        r.overlaps@.len() == r.cell_count,
        r.soma_mask.wf() && r.soma_mask.rows == cd68_th.rows && r.soma_mask.cols == cd68_th.cols,
        r.soma_mask@ == opened(soma_th@, cd68_th.rows, cd68_th.cols, SOMA_OPEN_ITERATIONS),
        valid_labeling(r.soma_mask@, cd68_th.rows, cd68_th.cols, r.soma_regions@),
        (forall|t: int| 0 <= t < soma_th@.len() ==> !soma_th@[t]) ==> r.cell_count == 0,
        forall|i: int| 0 <= i < r.cd68_regions@.len()
            ==> (#[trigger] r.cd68_regions@[i])@.len() < max_co_marker_size,
        r.cd68_label.wf() && r.cd68_label.rows == cd68_th.rows
            && r.cd68_label.cols == cd68_th.cols,
        forall|p: Pnt| in_bounds(p, cd68_th.rows, cd68_th.cols)
            ==> r.cd68_label@[flat(p, cd68_th.cols)] == label_at(r.cd68_regions@, p),
        r.cd68_area == count_pos(r.cd68_label@),
        (forall|t: int| 0 <= t < cd68_th@.len() ==> !cd68_th@[t])
            ==> r.cd68_area == 0 && (forall|i: int|
                0 <= i < r.overlaps@.len() ==> (#[trigger] r.overlaps@[i]).0 == 0),
        forall|i: int| 0 <= i < r.cell_count
            ==> (#[trigger] r.segmented_regions@[i])@.len() >= 1
                && r.segmented_regions@[i]@[0] == r.markers@[i],
        forall|i: int| 0 <= i < r.cell_count
            ==> (#[trigger] r.markers@[i]).0 == sum_rows(r.soma_regions@[i]@) / (
            r.soma_regions@[i]@.len() as int) && r.markers@[i].1 == sum_cols(
                r.soma_regions@[i]@,
            ) / (r.soma_regions@[i]@.len() as int),
        exists|blobs: Seq<Vec<Pnt>>|
            #[trigger] valid_labeling(cd68_th@, cd68_th.rows, cd68_th.cols, blobs)
                && r.cd68_regions@ == blobs.filter(smaller_than(max_co_marker_size)),
        forall|i: int, k: int|
            0 <= i < r.cell_count && 1 <= k < r.segmented_regions@[i]@.len()
                ==> branches@[flat(#[trigger] r.segmented_regions@[i]@[k], cd68_th.cols)],
        forall|i: int, k: int|
            0 <= i < r.cell_count && 0 <= k < r.segmented_regions@[i]@.len()
                ==> in_bounds(#[trigger] r.segmented_regions@[i]@[k], cd68_th.rows, cd68_th.cols)
                    && connected(
                    with_seed(branches@, cd68_th.cols, r.markers@[i]),
                    cd68_th.rows,
                    cd68_th.cols,
                    r.markers@[i],
                    r.segmented_regions@[i]@[k],
                ),
        r.markers@.no_duplicates() ==> forall|i: int, j: int|
            0 <= i < r.cell_count && 0 <= j < r.cell_count && i != j
                ==> crate::binary::regions_disjoint(
                    (#[trigger] r.segmented_regions@[i])@,
                    (#[trigger] r.segmented_regions@[j])@,
                ),
        grown_closed(branches@, cd68_th.rows, cd68_th.cols, r.segmented_regions@),
        r.poly.wf() && r.poly.rows == cd68_th.rows && r.poly.cols == cd68_th.cols,
        forall|p: Pnt| in_bounds(p, cd68_th.rows, cd68_th.cols)
            ==> r.poly@[flat(p, cd68_th.cols)] == (if sobel_r(
                r.segmented@,
                cd68_th.rows,
                cd68_th.cols,
                p,
            ) == 0 && sobel_c(r.segmented@, cd68_th.rows, cd68_th.cols, p) == 0 {
                0u32
            } else {
                r.segmented@[flat(p, cd68_th.cols)]
            }),
        bfs_closed(r.labelled_skeleton@, cd68_th.rows, cd68_th.cols, r.bfs_claims@),
        forall|i: int, k: int|
            0 <= i < r.cell_count && 0 <= k < r.bfs_claims@[i].len()
                && r.skelly_markers@[i] is Some
                ==> connected_within(
                    with_seed(
                        cell_mask(r.labelled_skeleton@, r.skelly_markers@, i, cd68_th.cols),
                        cd68_th.cols,
                        r.skelly_markers@[i]->0,
                    ),
                    cd68_th.rows,
                    cd68_th.cols,
                    r.skelly_markers@[i]->0,
                    #[trigger] r.bfs_claims@[i][k],
                    r.length_grid@[flat(r.bfs_claims@[i][k], cd68_th.cols)] as int,
                ),
        forall|i: int, p: Pnt, nn: int|
            0 <= i < r.cell_count && r.skelly_markers@[i] is Some
                && in_bounds(p, cd68_th.rows, cd68_th.cols) && 0 <= nn
                && #[trigger] connected_within(
                with_seed(
                    cell_mask(r.labelled_skeleton@, r.skelly_markers@, i, cd68_th.cols),
                    cd68_th.cols,
                    r.skelly_markers@[i]->0,
                ),
                cd68_th.rows,
                cd68_th.cols,
                r.skelly_markers@[i]->0,
                p,
                nn,
            ) ==> r.bfs_claims@[i].contains(p)
                && r.length_grid@[flat(p, cd68_th.cols)] <= nn,
        forall|i: int, k: int, nn: int|
            0 <= i < r.cell_count && r.skelly_markers@[i] is Some
                && 0 <= k < r.bfs_claims@[i].len()
                && 0 <= nn < r.length_grid@[flat(r.bfs_claims@[i][k], cd68_th.cols)]
                ==> !#[trigger] connected_within(
                with_seed(
                    cell_mask(r.labelled_skeleton@, r.skelly_markers@, i, cd68_th.cols),
                    cd68_th.cols,
                    r.skelly_markers@[i]->0,
                ),
                cd68_th.rows,
                cd68_th.cols,
                r.skelly_markers@[i]->0,
                r.bfs_claims@[i][k],
                nn,
            ),
        r.bfs_claims@.len() == r.cell_count,
        forall|i: int| 0 <= i < r.cell_count
            ==> sum_hist((#[trigger] r.histograms@[i])@) == r.bfs_claims@[i].len(),
        forall|i: int, d: int|
            0 <= i < r.cell_count && 0 <= d < r.histograms@[i]@.len()
                ==> (#[trigger] r.histograms@[i]@[d]) == crate::binary::dist_count(
                    r.bfs_claims@[i],
                    r.length_grid@,
                    cd68_th.cols,
                    d,
                ),
        r.segmented.wf() && r.segmented.rows == cd68_th.rows && r.segmented.cols == cd68_th.cols,
        forall|p: Pnt| in_bounds(p, cd68_th.rows, cd68_th.cols)
            ==> r.segmented@[flat(p, cd68_th.cols)] == label_at(r.segmented_regions@, p),
        r.skeleton.wf() && r.skeleton.rows == cd68_th.rows && r.skeleton.cols == cd68_th.cols,
        forall|p: Pnt| in_bounds(p, cd68_th.rows, cd68_th.cols)
            && r.skeleton@[flat(p, cd68_th.cols)] ==> branches@[flat(p, cd68_th.cols)],
        r.labelled_skeleton.wf() && r.labelled_skeleton.rows == cd68_th.rows
            && r.labelled_skeleton.cols == cd68_th.cols,
        forall|p: Pnt| in_bounds(p, cd68_th.rows, cd68_th.cols)
            ==> r.labelled_skeleton@[flat(p, cd68_th.cols)]
                == (if r.skeleton@[flat(p, cd68_th.cols)] {
                    r.segmented@[flat(p, cd68_th.cols)]
                } else {
                    0u32
                }),
        decomposition_of(r.labelled_skeleton@, cd68_th.rows, cd68_th.cols, r.skelly_regions@),
        r.junctions.wf() && r.junctions.rows == cd68_th.rows && r.junctions.cols == cd68_th.cols,
        forall|p: Pnt| in_bounds(p, cd68_th.rows, cd68_th.cols)
            ==> r.junctions@[flat(p, cd68_th.cols)] == (r.skeleton@[flat(p, cd68_th.cols)]
                && crate::binary::transitions(r.skeleton@, (cd68_th.rows, cd68_th.cols), p) >= 3),
        r.length_grid.wf() && r.length_grid.rows == cd68_th.rows
            && r.length_grid.cols == cd68_th.cols,
        forall|i: int| 0 <= i < r.cell_count && #[trigger] r.skelly_markers@[i] is Some
            ==> i < r.skelly_regions@.len()
                && r.skelly_regions@[i]@.contains(r.skelly_markers@[i]->0)
                && r.histograms@[i]@.len() >= 1 && r.histograms@[i]@[0] == 1
                && r.length_grid@[flat(r.skelly_markers@[i]->0, cd68_th.cols)] == 0,
        forall|i: int| 0 <= i < r.cell_count && #[trigger] r.skelly_markers@[i] is None
            ==> r.histograms@[i]@.len() == 0,
        forall|i: int| 0 <= i < r.cell_count
            ==> ((#[trigger] r.length_sums@[i]) is Some <==> r.skelly_markers@[i] is Some),
        forall|i: int| 0 <= i < r.cell_count && #[trigger] r.length_sums@[i] is Some
            ==> (r.length_sums@[i]->0).0 == wsum(r.histograms@[i]@)
                && (r.length_sums@[i]->0).1 == sum_hist(r.histograms@[i]@)
                && (r.length_sums@[i]->0).1 >= 1,
        forall|i: int| 0 <= i < r.cell_count
            ==> (#[trigger] r.overlaps@[i]).0 == overlap_count(
                r.segmented_regions@[i]@,
                r.cd68_label@,
                cd68_th.cols,
            ) && r.overlaps@[i].1 == r.segmented_regions@[i]@.len(),
        forall|i: int| 0 <= i < r.cell_count && #[trigger] r.skelly_markers@[i] is None
            ==> r.rings@[i]@.len() == 0,
        forall|i: int, k: int|
            0 <= i < r.cell_count && r.skelly_markers@[i] is Some
                && 0 <= k < r.rings@[i]@.len()
                ==> (#[trigger] r.rings@[i]@[k]).0 > 0 && r.rings@[i]@[k].1
                    == crate::helpers::dcount(
                    r.skelly_regions@[i]@,
                    r.skelly_markers@[i]->0,
                    r.rings@[i]@[k].0,
                ),
{
    let rows = cd68_th.rows;
    let cols = cd68_th.cols;
    let shape: Pnt = (rows, cols);

    // Activation channel: label, then keep blobs under the size cap.
    let cd68_blobs = conncomps(cd68_th);
    let ghost blobs_snap = cd68_blobs@;
    let cd68_regions = filter_smaller(cd68_blobs, max_co_marker_size);
    proof {
        assert forall|i: int, k: int|
            0 <= i < cd68_regions@.len() && 0 <= k < cd68_regions@[i]@.len()
                implies in_bounds(#[trigger] cd68_regions@[i]@[k], rows, cols) by {
            blobs_snap.lemma_filter_pred(smaller_than(max_co_marker_size), i);
            blobs_snap.lemma_filter_contains_rev(
                smaller_than(max_co_marker_size),
                cd68_regions@[i],
            );
            assert(cd68_regions@.contains(cd68_regions@[i]));
            assert(blobs_snap.contains(cd68_regions@[i]));
            let j = choose|j: int| 0 <= j < blobs_snap.len() && blobs_snap[j] == cd68_regions@[i];
            assert(crate::binary::region_wf(cd68_th@, rows, cols, blobs_snap[j]@));
        }
        assert forall|i: int| 0 <= i < cd68_regions@.len()
            implies (#[trigger] cd68_regions@[i])@.len() < max_co_marker_size by {
            blobs_snap.lemma_filter_pred(smaller_than(max_co_marker_size), i);
        }
        blobs_snap.lemma_filter_len(smaller_than(max_co_marker_size));
    }
    let cd68_label = regions2label(&cd68_regions, shape);
    let cd68_area = count_positives(&cd68_label);

    // Soma channel: open, then label the components and take centroids.
    let soma_mask = binary_opening_mask(soma_th, SOMA_OPEN_ITERATIONS);
    let soma_regions = conncomps(&soma_mask);
    let n = soma_regions.len();
    let mut markers: Vec<Pnt> = Vec::new();
    let mut i: usize = 0;
    while i < n
        invariant
            i <= n,
            markers@.len() == i,
            forall|j: int| 0 <= j < i
                ==> in_bounds(#[trigger] markers@[j], rows, cols),
            forall|j: int| 0 <= j < i
                ==> (#[trigger] markers@[j]).0 == sum_rows(soma_regions@[j]@) / (
                soma_regions@[j]@.len() as int) && markers@[j].1 == sum_cols(soma_regions@[j]@)
                    / (soma_regions@[j]@.len() as int),
        decreases n - i,
    {
        let region = &soma_regions[i];
        proof {
            let rv = region@;
            assert(crate::binary::region_wf(soma_mask@, rows, cols, rv));
            assert(rv.len() >= 1);
            assert(in_bounds(rv[0], rows, cols));
            assert(cols >= 1 && rows >= 1);
            crate::regions::lemma_sums_bound_pub(rv, rows, cols);
            assert(rv.len() <= rows * cols);
            assert(rv.len() * (rows - 1) <= rows * cols * rows) by (nonlinear_arith)
                requires
                    0 <= rv.len() <= rows * cols,
                    rows >= 1,
            ;
            assert(rv.len() * (cols - 1) <= rows * cols * cols) by (nonlinear_arith)
                requires
                    0 <= rv.len() <= rows * cols,
                    cols >= 1,
            ;
            assert(crate::regions::sum_rows(rv) <= usize::MAX);
            assert(crate::regions::sum_cols(rv) <= usize::MAX);
            lemma_centroid_in_bounds(rv, rows, cols);
        }
        let m = centroids(region);
        markers.push(m);
        i += 1;
    }
    let cell_count = markers.len();

    // Grow one region per cell through the branch mask and label them.
    let segmented_regions = floodfill(branches, &markers);
    let segmented = regions2label(&segmented_regions, shape);

    // Skeletonize and intersect with the cell labeling.
    let skeleton = skel(branches);
    let poly = perimeter(&segmented);
    let junctions = count_branches(&skeleton);
    let labelled_skeleton = mask_label(&skeleton, &segmented);
    let skelly_regions = label2regions(&labelled_skeleton);

    // Per cell, seed the geodesic pass at the skeleton point nearest the
    // soma centroid; a cell without skeleton pixels takes no part.
    let mut skelly_markers: Vec<Option<Pnt>> = Vec::new();
    let mut i: usize = 0;
    while i < cell_count
        invariant
            i <= cell_count,
            skelly_markers@.len() == i,
            forall|j: int| #![trigger skelly_markers@[j]] 0 <= j < i
                ==> (skelly_markers@[j] is Some ==> j < skelly_regions@.len()
                    && skelly_regions@[j]@.contains(skelly_markers@[j]->0)
                    && in_bounds(skelly_markers@[j]->0, rows, cols)),
        decreases cell_count - i,
    {
        if i < skelly_regions.len() && skelly_regions[i].len() > 0 {
            let region = &skelly_regions[i];
            proof {
                assert forall|t: int| 0 <= t < region@.len() implies
                    crate::helpers::sq_dist(#[trigger] region@[t], markers@[i as int])
                        <= usize::MAX by {
                    assert(in_bounds(region@[t], rows, cols));
                    assert(in_bounds(markers@[i as int], rows, cols));
                    assert(cols >= 1 && rows >= 1);
                    assert(crate::helpers::sq_dist(region@[t], markers@[i as int])
                        <= rows * cols * (rows * cols) * 2) by (nonlinear_arith)
                        requires
                            region@[t].0 < rows,
                            region@[t].1 < cols,
                            markers@[i as int].0 < rows,
                            markers@[i as int].1 < cols,
                            rows >= 1,
                            cols >= 1,
                    ;
                    assert(rows * cols * (rows * cols) * 2 <= usize::MAX);
                }
            }
            let seed = nearest(markers[i], region);
            match seed {
                Some(m) => {
                    proof {
                        let idx = choose|idx: int|
                            0 <= idx < region@.len() && region@[idx] == m
                                && (forall|j2: int| 0 <= j2 < region@.len()
                                    ==> crate::helpers::sq_dist(#[trigger] region@[j2],
                                        markers@[i as int]) >= crate::helpers::sq_dist(m,
                                        markers@[i as int]))
                                && (forall|j2: int| 0 <= j2 < idx
                                    ==> crate::helpers::sq_dist(#[trigger] region@[j2],
                                        markers@[i as int]) > crate::helpers::sq_dist(m,
                                        markers@[i as int]));
                        assert(region@.contains(m));
                        assert(in_bounds(m, rows, cols));
                    }
                    skelly_markers.push(Some(m));
                },
                None => {
                    skelly_markers.push(None);
                },
            }
        } else {
            skelly_markers.push(None);
        }
        i += 1;
    }

    proof {
        // Seeds of different cells carry different labels, so they differ.
        assert forall|j1: int, j2: int|
            0 <= j1 < skelly_markers@.len() && 0 <= j2 < skelly_markers@.len() && j1 != j2
                && #[trigger] skelly_markers@[j1] is Some
                && #[trigger] skelly_markers@[j2] is Some
                implies skelly_markers@[j1]->0 != skelly_markers@[j2]->0 by {
            let m1 = skelly_markers@[j1]->0;
            let m2 = skelly_markers@[j2]->0;
            let t1 = choose|t: int|
                0 <= t < skelly_regions@[j1]@.len() && skelly_regions@[j1]@[t] == m1;
            let t2 = choose|t: int|
                0 <= t < skelly_regions@[j2]@.len() && skelly_regions@[j2]@[t] == m2;
            assert(labelled_skeleton@[flat(m1, cols)] == j1 + 1);
            assert(labelled_skeleton@[flat(m2, cols)] == j2 + 1);
            if m1 == m2 {
                assert(false);
            }
        }
    }

    let bfs = branch_length(&labelled_skeleton, &skelly_markers);
    let length_grid = bfs.0;
    let histograms = bfs.1;
    let bfs_claims = bfs.2;

    // Per seeded cell, the weighted and plain histogram sums.
    let mut length_sums: Vec<Option<(u64, usize)>> = Vec::new();
    let mut i: usize = 0;
    while i < cell_count
        invariant
            i <= cell_count,
            cell_count == skelly_markers@.len(),
            histograms@.len() == cell_count,
            length_sums@.len() == i,
            forall|j: int| #![trigger length_sums@[j]] 0 <= j < i
                ==> (length_sums@[j] is Some <==> skelly_markers@[j] is Some),
            forall|j: int| #![trigger length_sums@[j]] 0 <= j < i && length_sums@[j] is Some
                ==> (length_sums@[j]->0).0 == wsum(histograms@[j]@)
                    && (length_sums@[j]->0).1 == sum_hist(histograms@[j]@)
                    && (length_sums@[j]->0).1 >= 1,
        decreases cell_count - i,
    {
        if skelly_markers[i].is_some() {
            let h = &histograms[i];
            proof {
                crate::binary::lemma_sum_hist_nonneg(h@);
                assert(h@.len() <= rows * cols + 1);
            }
            let ws = weighted_sums(h, 0x8000_0000);
            length_sums.push(Some(ws));
        } else {
            length_sums.push(None);
        }
        i += 1;
    }

    // Per seeded cell, its Scholl rings.
    let mut rings: Vec<Vec<(usize, usize)>> = Vec::new();
    let mut i: usize = 0;
    while i < cell_count
        invariant
            i <= cell_count,
            cell_count == skelly_markers@.len(),
            rings@.len() == i,
            forall|j: int| #![trigger rings@[j]] 0 <= j < i && skelly_markers@[j] is None
                ==> rings@[j]@.len() == 0,
            forall|j: int, k: int|
                0 <= j < i && skelly_markers@[j] is Some
                    && 0 <= k < rings@[j]@.len()
                    ==> (#[trigger] rings@[j]@[k]).0 > 0 && rings@[j]@[k].1
                        == crate::helpers::dcount(
                        skelly_regions@[j]@,
                        skelly_markers@[j]->0,
                        rings@[j]@[k].0,
                    ),
        decreases cell_count - i,
    {
        match skelly_markers[i] {
            Some(seed) => {
                let region = &skelly_regions[i];
                proof {
                    assert forall|t: int| 0 <= t < region@.len() implies
                        crate::helpers::sq_dist(#[trigger] region@[t], seed) <= usize::MAX by {
                        assert(in_bounds(region@[t], rows, cols));
                        assert(in_bounds(seed, rows, cols));
                        assert(crate::helpers::sq_dist(region@[t], seed)
                            <= rows * cols * (rows * cols) * 2) by (nonlinear_arith)
                            requires
                                region@[t].0 < rows,
                                region@[t].1 < cols,
                                seed.0 < rows,
                                seed.1 < cols,
                                rows >= 1,
                                cols >= 1,
                        ;
                        assert(rows * cols * (rows * cols) * 2 <= usize::MAX);
                    }
                }
                let cell_rings = scholl_rings(seed, region);
                rings.push(cell_rings);
            },
            None => {
                rings.push(Vec::new());
            },
        }
        i += 1;
    }

    // Per cell, how many of its pixels the activation labeling marks.
    let mut overlaps: Vec<(usize, usize)> = Vec::new();
    let mut i: usize = 0;
    while i < cell_count
        invariant
            i <= cell_count,
            cell_count == segmented_regions@.len(),
            overlaps@.len() == i,
            forall|j: int| #![trigger overlaps@[j]] 0 <= j < i
                ==> overlaps@[j].0 == overlap_count(
                    segmented_regions@[j]@,
                    cd68_label@,
                    cols,
                ) && overlaps@[j].1 == segmented_regions@[j]@.len(),
        decreases cell_count - i,
    {
        let region = &segmented_regions[i];
        let cnt = region_overlap(region, &cd68_label);
        overlaps.push((cnt, region.len()));
        i += 1;
    }

    proof {
        assert(valid_labeling(cd68_th@, rows, cols, blobs_snap));
        assert(cd68_regions@ == blobs_snap.filter(smaller_than(max_co_marker_size)));
        // An all-background soma mask opens to itself and has no component.
        assert((forall|t: int| 0 <= t < soma_th@.len() ==> !soma_th@[t])
            ==> soma_regions@.len() == 0) by {
            if forall|t: int| 0 <= t < soma_th@.len() ==> !soma_th@[t] {
                if soma_regions@.len() > 0 {
                    assert(soma_regions@[0]@.len() >= 1);
                    let p0 = soma_regions@[0]@[0];
                    assert(in_bounds(p0, rows, cols));
                    assert(soma_mask@[flat(p0, cols)]);
                    assert(false);
                }
            }
        }
        // An all-background activation mask labels nothing and overlaps
        // nothing.
        if forall|t: int| 0 <= t < cd68_th@.len() ==> !cd68_th@[t] {
            assert forall|p: Pnt| in_bounds(p, rows, cols) implies
                cd68_label@[flat(p, cols)] == 0 by {
                if blobs_snap.len() > 0 {
                    assert(blobs_snap[0]@.len() >= 1);
                    let p0 = blobs_snap[0]@[0];
                    assert(cd68_th@[flat(p0, cols)]);
                    assert(false);
                }
                assert(cd68_regions@.len() == 0);
                assert(label_at(cd68_regions@, p) == 0);
            }
            assert forall|t: int| 0 <= t < cd68_label@.len() implies
                cd68_label@[t] == 0 by {
                crate::types::lemma_point_of_index(t, rows, cols);
                let p = choose|p: Pnt| in_bounds(p, rows, cols) && #[trigger] flat(p, cols) == t;
                assert(cd68_label@[flat(p, cols)] == 0);
            }
            lemma_count_pos_zero(cd68_label@);
            assert forall|j: int| 0 <= j < overlaps@.len() implies
                (#[trigger] overlaps@[j]).0 == 0 by {
                assert forall|k: int| 0 <= k < segmented_regions@[j]@.len() implies
                    0 <= flat(#[trigger] segmented_regions@[j]@[k], cols)
                        < cd68_label@.len() by {
                    lemma_flat_in_range(segmented_regions@[j]@[k], rows, cols);
                }
                lemma_overlap_zero(segmented_regions@[j]@, cd68_label@, cols);
            }
        }
    }

    MaskAnalysis {
        cell_count,
        markers,
        soma_mask,
        soma_regions,
        cd68_regions,
        cd68_label,
        cd68_area,
        segmented_regions,
        segmented,
        skeleton,
        poly,
        junctions,
        labelled_skeleton,
        skelly_regions,
        skelly_markers,
        length_grid,
        histograms,
        bfs_claims,
        length_sums,
        rings,
        overlaps,
    }
}

} // verus!
