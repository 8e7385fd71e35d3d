//! Region artifacts: the multi-source grower (flood fill), conversions
//! between region lists and label grids, and centroids.

use vstd::prelude::*;
use crate::types::{
    adj, connected, count_false, flat, in_bounds, is_path, lemma_connected_refl,
    lemma_connected_step, lemma_count_false_update, lemma_flat_in_range, with_seed, Matrix, Pnt,
};
use crate::helpers::{has_neighbour, neighbour_of, neighbour_pt};
use crate::binary::{lemma_adj_is_dir, regions_disjoint, some_region_contains};

verus! {

broadcast use {
    crate::types::lemma_flat_injective,
    crate::types::lemma_in_bounds_flat,
    vstd::seq_lib::group_seq_properties,
};

/// Total number of queued points across all per-cell frontiers.
pub open spec fn sum_lens(fs: Seq<Vec<Pnt>>) -> nat
    decreases fs.len(),
{
    if fs.len() == 0 {
        0
    } else {
        sum_lens(fs.drop_last()) + fs.last()@.len()
    }
}

/// A nonempty frontier keeps the total positive.
proof fn lemma_sum_lens_pos(fs: Seq<Vec<Pnt>>, i: int)
    requires
        0 <= i < fs.len(),
        fs[i]@.len() > 0,
    ensures
        sum_lens(fs) > 0,
    decreases fs.len(),
{
    if i < fs.len() - 1 {
        lemma_sum_lens_pos(fs.drop_last(), i);
    }
}

/// Is any of the frontiers nonempty?
fn any_nonempty(fs: &Vec<Vec<Pnt>>) -> (r: bool)
    ensures
        r <==> exists|i: int| 0 <= i < fs@.len() && (#[trigger] fs@[i])@.len() > 0,
{
    let mut i: usize = 0;
    while i < fs.len()
        invariant
            i <= fs@.len(),
            forall|j: int| 0 <= j < i ==> (#[trigger] fs@[j])@.len() == 0,
        decreases fs@.len() - i,
    {
        if fs[i].len() > 0 {
            return true;
        }
        i += 1;
    }
    false
}

/// Every in-bounds mask neighbour of `p` is already visited: the frontier
/// around `p` has nowhere left to spread.
pub open spec fn frontier_settled(
    v: Seq<bool>,
    rows: usize,
    cols: usize,
    vis: Seq<bool>,
    p: Pnt,
) -> bool {
    forall|q: Pnt| #[trigger] adj(p, q) && in_bounds(q, rows, cols) && v[flat(q, cols)]
        ==> vis[flat(q, cols)]
}

/// The grown regions are closed under mask adjacency: an in-bounds mask
/// neighbour of any claimed pixel is itself claimed by some cell.
pub open spec fn grown_closed(v: Seq<bool>, rows: usize, cols: usize, out: Seq<Vec<Pnt>>) -> bool {
    forall|i: int, k: int, q: Pnt|
        0 <= i < out.len() && 0 <= k < out[i]@.len() && #[trigger] adj(out[i]@[k], q)
            && in_bounds(q, rows, cols) && v[flat(q, cols)]
            ==> some_region_contains(out, q)
}

/// The grower's running state: one region per marker, each opening with its
/// marker; members in bounds, non-marker members on the mask and connected
/// to their marker through the mask; the visited grid is exactly the union
/// of the regions; and distinct markers keep the regions duplicate-free and
/// pairwise disjoint.
pub open spec fn grow_inv(
    v: Seq<bool>,
    rows: usize,
    cols: usize,
    markers: Seq<Pnt>,
    vis: Seq<bool>,
    out: Seq<Vec<Pnt>>,
) -> bool {
    &&& out.len() == markers.len()
    &&& forall|i: int| 0 <= i < out.len() ==> (#[trigger] out[i])@.len() >= 1
    &&& forall|i: int| 0 <= i < out.len() ==> (#[trigger] out[i])@[0] == markers[i]
    &&& forall|i: int, k: int|
        0 <= i < out.len() && 0 <= k < out[i]@.len()
            ==> in_bounds(#[trigger] out[i]@[k], rows, cols)
    &&& forall|i: int, k: int|
        0 <= i < out.len() && 1 <= k < out[i]@.len() ==> v[flat(#[trigger] out[i]@[k], cols)]
    &&& forall|i: int, k: int|
        0 <= i < out.len() && 0 <= k < out[i]@.len()
            ==> connected(with_seed(v, cols, markers[i]), rows, cols, markers[i],
                #[trigger] out[i]@[k])
    &&& forall|p: Pnt| in_bounds(p, rows, cols)
        ==> (vis[flat(p, cols)] <==> some_region_contains(out, p))
    &&& (markers.no_duplicates() ==> forall|i: int|
        0 <= i < out.len() ==> (#[trigger] out[i])@.no_duplicates())
    &&& (markers.no_duplicates() ==> forall|i: int, j: int|
        0 <= i < out.len() && 0 <= j < out.len() && i != j
            ==> regions_disjoint((#[trigger] out[i])@, (#[trigger] out[j])@))
}

/// Claims the unvisited mask pixel `q`, adjacent to the already-claimed
/// `pt`, for cell `j`: marks it visited and appends it to the region.
#[verifier::loop_isolation(false)]
#[verifier::rlimit(100)]
fn claim(
    img: &Matrix<bool>,
    markers: &Vec<Pnt>,
    visited: &mut Matrix<bool>,
    out: &mut Vec<Vec<Pnt>>,
    j: usize,
    pt: Pnt,
    q: Pnt,
)
    requires
        img.wf(),
        old(visited).wf(),
        old(visited).rows == img.rows,
        old(visited).cols == img.cols,
        grow_inv(img@, img.rows, img.cols, markers@, old(visited)@, old(out)@),
        j < markers@.len(),
        old(out)@[j as int]@.contains(pt),
        adj(pt, q),
        in_bounds(q, img.rows, img.cols),
        img@[flat(q, img.cols)],
        !old(visited)@[flat(q, img.cols)],
    ensures
        final(visited).wf(),
        final(visited).rows == img.rows,
        final(visited).cols == img.cols,
        grow_inv(img@, img.rows, img.cols, markers@, final(visited)@, final(out)@),
        final(out)@.len() == old(out)@.len(),
        forall|jj: int|
            0 <= jj < old(out)@.len() && jj != j ==> final(out)@[jj] == old(out)@[jj],
        final(out)@[j as int]@ == old(out)@[j as int]@.push(q),
        final(out)@[j as int]@.contains(q),
        count_false(final(visited)@) == count_false(old(visited)@) - 1,
        final(visited)@[flat(q, img.cols)],
        forall|p: Pnt|
            frontier_settled(img@, img.rows, img.cols, old(visited)@, p)
                ==> frontier_settled(img@, img.rows, img.cols, final(visited)@, p),
        forall|t: int| 0 <= t < old(visited)@.len() && old(visited)@[t]
            ==> final(visited)@[t],
{
    let rows = img.rows;
    let cols = img.cols;
    proof {
        lemma_flat_in_range(q, rows, cols);
        lemma_count_false_update(visited@, flat(q, cols));
        let m = markers@[j as int];
        let kpt = choose|k: int| 0 <= k < out@[j as int]@.len() && out@[j as int]@[k] == pt;
        assert(connected(with_seed(img@, cols, m), rows, cols, m, out@[j as int]@[kpt]));
        assert(with_seed(img@, cols, m)[flat(q, cols)]);
        lemma_connected_step(with_seed(img@, cols, m), rows, cols, m, pt, q);
    }
    visited.set(q, true);
    proof {
        assert forall|p: Pnt|
            frontier_settled(img@, rows, cols, old(visited)@, p) implies frontier_settled(
            img@,
            rows,
            cols,
            visited@,
            p,
        ) by {
            assert forall|q2: Pnt| #[trigger] adj(p, q2) && in_bounds(q2, rows, cols)
                && img@[flat(q2, cols)] implies visited@[flat(q2, cols)] by {
                assert(old(visited)@[flat(q2, cols)]);
            }
        }
    }
    let ghost old_out = out@;
    let region: &mut Vec<Pnt> = &mut out[j];
    region.push(q);
    proof {
        let n = markers@.len();
        assert(out@[j as int]@ =~= old_out[j as int]@.push(q));
        assert(out@[j as int]@.contains(q));
        assert forall|p: Pnt| in_bounds(p, rows, cols) implies
            (visited@[flat(p, cols)] <==> some_region_contains(out@, p)) by {
            if p == q {
                assert(out@[j as int]@.contains(q));
            } else {
                if some_region_contains(old_out, p) {
                    let jj = choose|jj: int|
                        0 <= jj < old_out.len() && (#[trigger] old_out[jj])@.contains(p);
                    assert(out@[jj]@.contains(p));
                }
                if some_region_contains(out@, p) {
                    let jj = choose|jj: int|
                        0 <= jj < out@.len() && (#[trigger] out@[jj])@.contains(p);
                    assert(old_out[jj]@.contains(p));
                }
            }
        }
        if markers@.no_duplicates() {
            assert forall|jj: int, jjj: int|
                0 <= jj < n && 0 <= jjj < n && jj != jjj implies regions_disjoint(
                (#[trigger] out@[jj])@,
                (#[trigger] out@[jjj])@,
            ) by {
                assert forall|p: Pnt| #[trigger] out@[jj]@.contains(p)
                    implies !out@[jjj]@.contains(p) by {
                    if p == q {
                        if jj != j as int {
                            assert(old_out[jj]@.contains(q));
                            assert(some_region_contains(old_out, q));
                            assert(false);
                        }
                        if out@[jjj]@.contains(q) {
                            assert(old_out[jjj]@.contains(q));
                            assert(some_region_contains(old_out, q));
                            assert(false);
                        }
                    } else {
                        assert(old_out[jj]@.contains(p));
                        assert(!old_out[jjj]@.contains(p));
                        if out@[jjj]@.contains(p) {
                            assert(old_out[jjj]@.contains(p));
                            assert(false);
                        }
                    }
                }
            }
            assert forall|jj: int| 0 <= jj < n implies (#[trigger] out@[jj])@.no_duplicates() by {
                if jj == j as int {
                    if old_out[jj]@.contains(q) {
                        assert(some_region_contains(old_out, q));
                        assert(false);
                    }
                    assert forall|a: int, b: int|
                        0 <= a < out@[jj]@.len() && 0 <= b < out@[jj]@.len() && a != b implies
                        out@[jj]@[a] != out@[jj]@[b] by {
                        if a < out@[jj]@.len() - 1 && b < out@[jj]@.len() - 1 {
                            assert(old_out[jj]@[a] != old_out[jj]@[b]);
                        } else if a == out@[jj]@.len() - 1 {
                            assert(out@[jj]@[a] == q);
                            if old_out[jj]@.contains(out@[jj]@[b]) {
                            } else {
                                assert(old_out[jj]@[b] == out@[jj]@[b]);
                                assert(old_out[jj]@.contains(out@[jj]@[b]));
                            }
                        } else {
                            assert(out@[jj]@[b] == q);
                            assert(old_out[jj]@[a] == out@[jj]@[a]);
                            assert(old_out[jj]@.contains(out@[jj]@[a]));
                        }
                    }
                }
            }
        }
    }
}

/// Seeds the grower: marks every marker visited and opens its singleton
/// region and frontier.
#[verifier::loop_isolation(false)]
#[verifier::rlimit(100)]
fn seed_regions(img: &Matrix<bool>, markers: &Vec<Pnt>) -> (r: (
    Matrix<bool>,
    Vec<Vec<Pnt>>,
    Vec<Vec<Pnt>>,
))
    requires
        img.wf(),
        forall|j: int| 0 <= j < markers@.len()
            ==> in_bounds(#[trigger] markers@[j], img.rows, img.cols),
    ensures
        r.0.wf(),
        r.0.rows == img.rows,
        r.0.cols == img.cols,
        grow_inv(img@, img.rows, img.cols, markers@, r.0@, r.1@),
        r.2@.len() == markers@.len(),
        forall|j: int, t: int|
            0 <= j < r.2@.len() && 0 <= t < r.2@[j]@.len()
                ==> r.1@[j]@.contains(#[trigger] r.2@[j]@[t]),
        forall|j: int, k: int|
            0 <= j < r.1@.len() && 0 <= k < r.1@[j]@.len()
                ==> r.2@[j]@.contains(#[trigger] r.1@[j]@[k]),
{
    let rows = img.rows;
    let cols = img.cols;
    let n = markers.len();
    let mut out: Vec<Vec<Pnt>> = Vec::new();
    let mut visited = Matrix::<bool>::filled(rows, cols, false);
    let mut current: Vec<Vec<Pnt>> = Vec::new();

    let mut i: usize = 0;
    while i < n
        invariant
            i <= n,
            visited.wf(),
            visited.rows == rows,
            visited.cols == cols,
            out@.len() == i,
            current@.len() == i,
            forall|j: int| 0 <= j < i ==> (#[trigger] out@[j])@.len() == 1,
            forall|j: int| 0 <= j < i ==> (#[trigger] out@[j])@[0] == markers@[j],
            forall|j: int| 0 <= j < i
                ==> (#[trigger] current@[j])@ =~= seq![markers@[j]],
            forall|p: Pnt| in_bounds(p, rows, cols)
                ==> (visited@[flat(p, cols)] <==> exists|j: int|
                    0 <= j < i && markers@[j] == p),
        decreases n - i,
    {
        let m = markers[i];
        proof {
            lemma_flat_in_range(m, rows, cols);
        }
        visited.set(m, true);
        let mut region: Vec<Pnt> = Vec::new();
        region.push(m);
        out.push(region);
        let mut front: Vec<Pnt> = Vec::new();
        front.push(m);
        current.push(front);
        i += 1;
    }

    proof {
        assert forall|j: int| 0 <= j < n implies (#[trigger] out@[j])@.no_duplicates()
            && connected(
                with_seed(img@, cols, markers@[j]),
                rows,
                cols,
                markers@[j],
                out@[j]@[0],
            ) by {
            lemma_flat_in_range(markers@[j], rows, cols);
            assert(with_seed(img@, cols, markers@[j])[flat(markers@[j], cols)]);
            lemma_connected_refl(with_seed(img@, cols, markers@[j]), rows, cols, markers@[j]);
        }
        assert forall|p: Pnt| in_bounds(p, rows, cols) implies
            (visited@[flat(p, cols)] <==> some_region_contains(out@, p)) by {
            if visited@[flat(p, cols)] {
                let j = choose|j: int| 0 <= j < n && markers@[j] == p;
                assert(out@[j]@[0] == p);
                assert(out@[j]@.contains(p));
            }
            if some_region_contains(out@, p) {
                let i2 = choose|i2: int| 0 <= i2 < out@.len() && (#[trigger] out@[i2])@.contains(p);
                let k2 = choose|k2: int| 0 <= k2 < out@[i2]@.len() && out@[i2]@[k2] == p;
                assert(out@[i2]@.len() == 1);
                assert(markers@[i2] == p);
            }
        }
        assert(grow_inv(img@, rows, cols, markers@, visited@, out@));
        assert forall|j: int, t: int|
            0 <= j < current@.len() && 0 <= t < current@[j]@.len()
                implies out@[j]@.contains(#[trigger] current@[j]@[t]) by {
            assert(current@[j]@[t] == markers@[j]);
            assert(out@[j]@[0] == markers@[j]);
        }
        assert forall|j: int, k: int|
            0 <= j < out@.len() && 0 <= k < out@[j]@.len()
                implies current@[j]@.contains(#[trigger] out@[j]@[k]) by {
            assert(out@[j]@[k] == markers@[j]);
            assert(current@[j]@[0] == markers@[j]);
        }
    }
    (visited, out, current)
}

/// Grows one region per marker simultaneously outward through the mask.
/// Frontiers advance in synchronized rounds; the first cell to reach a mask
/// pixel claims it permanently, earlier-listed cells winning round ties.
/// Markers with nothing reachable yield the singleton region of the marker.
///
/// The contract carries the grower law through `grow_inv`: one region per
/// marker, in marker order, each opening with its marker; every other member
/// is an in-bounds mask pixel connected to the marker through the mask; and
/// when the markers are pairwise distinct the regions are duplicate-free and
/// pairwise disjoint, so every assigned pixel belongs to exactly one
/// marker's region.
#[verifier::loop_isolation(false)]
#[verifier::rlimit(100)]
pub fn floodfill(img: &Matrix<bool>, markers: &Vec<Pnt>) -> (out: Vec<Vec<Pnt>>)
    requires
        img.wf(),
        forall|j: int| 0 <= j < markers@.len()
            ==> in_bounds(#[trigger] markers@[j], img.rows, img.cols),
    ensures
        out@.len() == markers@.len(),
        forall|i: int| 0 <= i < out@.len() ==> (#[trigger] out@[i])@.len() >= 1,
        forall|i: int| 0 <= i < out@.len() ==> (#[trigger] out@[i])@[0] == markers@[i],
        forall|i: int, k: int|
            0 <= i < out@.len() && 0 <= k < out@[i]@.len()
                ==> in_bounds(#[trigger] out@[i]@[k], img.rows, img.cols),
        forall|i: int, k: int|
            0 <= i < out@.len() && 1 <= k < out@[i]@.len()
                ==> img@[flat(#[trigger] out@[i]@[k], img.cols)],
        forall|i: int, k: int|
            0 <= i < out@.len() && 0 <= k < out@[i]@.len()
                ==> connected(
                    with_seed(img@, img.cols, markers@[i]),
                    img.rows,
                    img.cols,
                    markers@[i],
                    #[trigger] out@[i]@[k],
                ),
        markers@.no_duplicates() ==> forall|i: int|
            0 <= i < out@.len() ==> (#[trigger] out@[i])@.no_duplicates(),
        markers@.no_duplicates() ==> forall|i: int, j: int|
            0 <= i < out@.len() && 0 <= j < out@.len() && i != j
                ==> regions_disjoint((#[trigger] out@[i])@, (#[trigger] out@[j])@),
        grown_closed(img@, img.rows, img.cols, out@),
{
    let rows = img.rows;
    let cols = img.cols;
    let sh: Pnt = (rows, cols);
    let n = markers.len();
    let seeded = seed_regions(img, markers);
    let mut visited = seeded.0;
    let mut out = seeded.1;
    let mut current = seeded.2;

    while any_nonempty(&current)
        invariant
            visited.wf(),
            visited.rows == rows,
            visited.cols == cols,
            current@.len() == n,
            grow_inv(img@, rows, cols, markers@, visited@, out@),
            forall|j: int, t: int|
                0 <= j < n && 0 <= t < current@[j]@.len()
                    ==> out@[j]@.contains(#[trigger] current@[j]@[t]),
            forall|j: int, k: int|
                0 <= j < n && 0 <= k < out@[j]@.len()
                    ==> frontier_settled(img@, rows, cols, visited@, #[trigger] out@[j]@[k])
                        || current@[j]@.contains(out@[j]@[k]),
        decreases count_false(visited@), sum_lens(current@),
    {
        let ghost c0 = count_false(visited@);
        let mut next: Vec<Vec<Pnt>> = Vec::new();
        let mut j: usize = 0;
        while j < n
            invariant
                j <= n,
                next@.len() == j,
                visited.wf(),
                visited.rows == rows,
                visited.cols == cols,
                current@.len() == n,
                grow_inv(img@, rows, cols, markers@, visited@, out@),
                forall|jj: int, t: int|
                    0 <= jj < n && 0 <= t < current@[jj]@.len()
                        ==> out@[jj]@.contains(#[trigger] current@[jj]@[t]),
                forall|jj: int, t: int|
                    0 <= jj < j && 0 <= t < next@[jj]@.len()
                        ==> out@[jj]@.contains(#[trigger] next@[jj]@[t]),
                forall|jj: int, k: int|
                    0 <= jj < j && 0 <= k < out@[jj]@.len()
                        ==> frontier_settled(img@, rows, cols, visited@, #[trigger] out@[jj]@[k])
                            || next@[jj]@.contains(out@[jj]@[k]),
                forall|jj: int, k: int|
                    j <= jj < n && 0 <= k < out@[jj]@.len()
                        ==> frontier_settled(img@, rows, cols, visited@, #[trigger] out@[jj]@[k])
                            || current@[jj]@.contains(out@[jj]@[k]),
                count_false(visited@) <= c0,
                count_false(visited@) == c0 ==> sum_lens(next@) == 0,
            decreases n - j,
        {
            let ghost cfr = count_false(visited@);
            let ghost sum0 = sum_lens(next@);
            let mut fresh: Vec<Pnt> = Vec::new();
            let round_len = current[j].len();
            let mut t: usize = 0;
            while t < round_len
                invariant
                    j < n,
                    t <= round_len,
                    round_len == current@[j as int]@.len(),
                    visited.wf(),
                    visited.rows == rows,
                    visited.cols == cols,
                    current@.len() == n,
                    grow_inv(img@, rows, cols, markers@, visited@, out@),
                    forall|jj: int, tt: int|
                        0 <= jj < n && 0 <= tt < current@[jj]@.len()
                            ==> out@[jj]@.contains(#[trigger] current@[jj]@[tt]),
                    forall|tt: int| 0 <= tt < fresh@.len()
                        ==> out@[j as int]@.contains(#[trigger] fresh@[tt]),
                    forall|jj: int, tt: int|
                        0 <= jj < j && 0 <= tt < next@[jj]@.len()
                            ==> out@[jj]@.contains(#[trigger] next@[jj]@[tt]),
                    forall|jj: int, k: int|
                        0 <= jj < j && 0 <= k < out@[jj]@.len()
                            ==> frontier_settled(img@, rows, cols, visited@,
                                #[trigger] out@[jj]@[k]) || next@[jj]@.contains(out@[jj]@[k]),
                    forall|jj: int, k: int|
                        j < jj < n && 0 <= k < out@[jj]@.len()
                            ==> frontier_settled(img@, rows, cols, visited@,
                                #[trigger] out@[jj]@[k]) || current@[jj]@.contains(out@[jj]@[k]),
                    forall|k: int|
                        0 <= k < out@[j as int]@.len()
                            ==> frontier_settled(img@, rows, cols, visited@,
                                #[trigger] out@[j as int]@[k])
                                || (exists|t2: int|
                                    t <= t2 < round_len && current@[j as int]@[t2]
                                        == out@[j as int]@[k])
                                || fresh@.contains(out@[j as int]@[k]),
                    count_false(visited@) <= cfr,
                    cfr <= c0,
                    cfr == c0 ==> sum0 == 0,
                    sum0 == sum_lens(next@),
                    count_false(visited@) == c0 ==> fresh@.len() == 0,
                decreases round_len - t,
            {
                let pt = current[j][t];
                let mut k: usize = 0;
                proof {
                    let kk = choose|kk: int|
                        0 <= kk < out@[j as int]@.len() && out@[j as int]@[kk] == pt;
                    assert(in_bounds(out@[j as int]@[kk], rows, cols));
                }
                while k < 8
                    invariant
                        j < n,
                        k <= 8,
                        in_bounds(pt, rows, cols),
                        out@[j as int]@.contains(pt),
                        visited.wf(),
                        visited.rows == rows,
                        visited.cols == cols,
                        current@.len() == n,
                        grow_inv(img@, rows, cols, markers@, visited@, out@),
                        forall|jj: int, tt: int|
                            0 <= jj < n && 0 <= tt < current@[jj]@.len()
                                ==> out@[jj]@.contains(#[trigger] current@[jj]@[tt]),
                        forall|tt: int| 0 <= tt < fresh@.len()
                            ==> out@[j as int]@.contains(#[trigger] fresh@[tt]),
                        forall|jj: int, tt: int|
                            0 <= jj < j && 0 <= tt < next@[jj]@.len()
                                ==> out@[jj]@.contains(#[trigger] next@[jj]@[tt]),
                        forall|jj: int, k2: int|
                            0 <= jj < j && 0 <= k2 < out@[jj]@.len()
                                ==> frontier_settled(img@, rows, cols, visited@,
                                    #[trigger] out@[jj]@[k2]) || next@[jj]@.contains(
                                    out@[jj]@[k2],
                                ),
                        forall|jj: int, k2: int|
                            j < jj < n && 0 <= k2 < out@[jj]@.len()
                                ==> frontier_settled(img@, rows, cols, visited@,
                                    #[trigger] out@[jj]@[k2]) || current@[jj]@.contains(
                                    out@[jj]@[k2],
                                ),
                        forall|k2: int|
                            0 <= k2 < out@[j as int]@.len()
                                ==> frontier_settled(img@, rows, cols, visited@,
                                    #[trigger] out@[j as int]@[k2])
                                    || (exists|t2: int|
                                        t < t2 < round_len && current@[j as int]@[t2]
                                            == out@[j as int]@[k2])
                                    || fresh@.contains(out@[j as int]@[k2])
                                    || out@[j as int]@[k2] == pt,
                        forall|d: int|
                            0 <= d < k && has_neighbour(pt, d, sh)
                                ==> in_bounds(#[trigger] neighbour_pt(pt, d), rows, cols)
                                    && (img@[flat(neighbour_pt(pt, d), cols)]
                                        ==> visited@[flat(neighbour_pt(pt, d), cols)]),
                        count_false(visited@) <= cfr,
                        cfr <= c0,
                        cfr == c0 ==> sum0 == 0,
                        sum0 == sum_lens(next@),
                        count_false(visited@) == c0 ==> fresh@.len() == 0,
                    decreases 8 - k,
                {
                    let nb = neighbour_of(pt, k, sh);
                    match nb {
                        Some(q) => {
                            proof {
                                lemma_flat_in_range(q, rows, cols);
                            }
                            if img.get(q) && !visited.get(q) {
                                claim(img, markers, &mut visited, &mut out, j, pt, q);
                                fresh.push(q);
                            }
                        },
                        None => {},
                    }
                    proof {
                        if has_neighbour(pt, k as int, sh)
                            && img@[flat(neighbour_pt(pt, k as int), cols)] {
                            assert(nb == Some(neighbour_pt(pt, k as int)));
                            assert(visited@[flat(neighbour_pt(pt, k as int), cols)]);
                        }
                    }
                    k += 1;
                }
                proof {
                    assert(frontier_settled(img@, rows, cols, visited@, pt)) by {
                        assert forall|q: Pnt| #[trigger] adj(pt, q) && in_bounds(q, rows, cols)
                            && img@[flat(q, cols)] implies visited@[flat(q, cols)] by {
                            lemma_adj_is_dir(pt, q, sh);
                            let d = choose|d: int|
                                0 <= d < 8 && has_neighbour(pt, d, sh)
                                    && #[trigger] neighbour_pt(pt, d) == q;
                            assert(visited@[flat(neighbour_pt(pt, d), cols)]);
                        }
                    }
                }
                t += 1;
            }
            let ghost next_prev = next@;
            next.push(fresh);
            proof {
                assert(next@.drop_last() =~= next_prev);
                if count_false(visited@) == c0 {
                    assert(cfr == c0);
                    assert(sum_lens(next_prev) == 0);
                    assert(sum_lens(next@) == sum_lens(next@.drop_last()) + next@.last()@.len());
                }
                assert forall|jj: int, t: int|
                    0 <= jj < j + 1 && 0 <= t < next@[jj]@.len()
                        implies out@[jj]@.contains(#[trigger] next@[jj]@[t]) by {
                    if jj == j as int {
                        assert(next@[jj] == fresh);
                    } else {
                        assert(next@[jj] == next_prev[jj]);
                    }
                }
                assert forall|jj: int, k: int|
                    0 <= jj < j + 1 && 0 <= k < out@[jj]@.len()
                        && !frontier_settled(img@, rows, cols, visited@,
                        #[trigger] out@[jj]@[k]) implies next@[jj]@.contains(out@[jj]@[k]) by {
                    if jj == j as int {
                        assert(next@[jj] == fresh);
                        assert(fresh@.contains(out@[jj]@[k]));
                    } else {
                        assert(next@[jj] == next_prev[jj]);
                        assert(next_prev[jj]@.contains(out@[jj]@[k]));
                    }
                }
            }
            j += 1;
        }
        proof {
            if count_false(visited@) == c0 {
                assert(sum_lens(next@) == 0);
                let w = choose|w: int|
                    0 <= w < current@.len() && (#[trigger] current@[w])@.len() > 0;
                lemma_sum_lens_pos(current@, w);
            }
        }
        current = next;
    }
    out
}



/// A path through the seeded mask stays inside the union of the grown
/// regions once it starts there.
proof fn lemma_covers_path(
    v: Seq<bool>,
    rows: usize,
    cols: usize,
    m: Pnt,
    out: Seq<Vec<Pnt>>,
    path: Seq<Pnt>,
)
    requires
        v.len() == rows * cols,
        in_bounds(m, rows, cols),
        grown_closed(v, rows, cols, out),
        some_region_contains(out, m),
        is_path(with_seed(v, cols, m), rows, cols, path),
        some_region_contains(out, path[0]),
    ensures
        some_region_contains(out, path.last()),
    decreases path.len(),
{
    if path.len() == 1 {
        assert(path.last() == path[0]);
    } else {
        let q = path[1];
        assert(adj(path[0], q));
        assert(in_bounds(q, rows, cols));
        if q != m {
            assert(flat(q, cols) != flat(m, cols));
            assert(v[flat(q, cols)]);
            let i0 = choose|i0: int| 0 <= i0 < out.len() && (#[trigger] out[i0])@.contains(path[0]);
            let k0 = choose|k0: int| 0 <= k0 < out[i0]@.len() && out[i0]@[k0] == path[0];
            assert(adj(out[i0]@[k0], q));
            assert(some_region_contains(out, q));
        }
        let rest = path.drop_first();
        assert forall|t: int| 0 <= t < rest.len() implies
            in_bounds(#[trigger] rest[t], rows, cols)
                && with_seed(v, cols, m)[flat(rest[t], cols)] by {
            assert(rest[t] == path[t + 1]);
        }
        assert forall|t: int| 0 <= t < rest.len() - 1 implies adj(#[trigger] rest[t], rest[t + 1]) by {
            assert(rest[t] == path[t + 1] && rest[t + 1] == path[t + 2]);
            assert(adj(path[t + 1], path[t + 2]));
        }
        assert(is_path(with_seed(v, cols, m), rows, cols, rest));
        assert(rest[0] == q);
        lemma_covers_path(v, rows, cols, m, out, rest);
        assert(rest.last() == path.last());
    }
}

/// Grower coverage law: together with `grown_closed`, every in-bounds mask
/// pixel connected through the mask to some marker is assigned to some
/// region — so with the soundness and disjointness clauses, a marker alone
/// in its mask component gets exactly that component.
pub proof fn lemma_grower_covers(
    v: Seq<bool>,
    rows: usize,
    cols: usize,
    markers: Seq<Pnt>,
    out: Seq<Vec<Pnt>>,
    i: int,
    p: Pnt,
)
    requires
        v.len() == rows * cols,
        out.len() == markers.len(),
        forall|j: int| 0 <= j < out.len()
            ==> (#[trigger] out[j])@.len() >= 1 && out[j]@[0] == markers[j],
        grown_closed(v, rows, cols, out),
        0 <= i < markers.len(),
        in_bounds(markers[i], rows, cols),
        connected(with_seed(v, cols, markers[i]), rows, cols, markers[i], p),
        in_bounds(p, rows, cols),
    ensures
        some_region_contains(out, p),
{
    let m = markers[i];
    assert(out[i]@[0] == m);
    assert(out[i]@.contains(m));
    assert(some_region_contains(out, m));
    let path = choose|path: Seq<Pnt>|
        is_path(with_seed(v, cols, m), rows, cols, path) && path.first() == m && path.last() == p;
    lemma_covers_path(v, rows, cols, m, out, path);
}

/// Appends `q` to region `i`; spelled out so the borrow of the outer
/// vector stays local to the call.
fn region_push(out: &mut Vec<Vec<Pnt>>, i: usize, q: Pnt)
    requires
        i < old(out)@.len(),
    ensures
        final(out)@.len() == old(out)@.len(),
        final(out)@[i as int]@ == old(out)@[i as int]@.push(q),
        forall|j: int|
            0 <= j < old(out)@.len() && j != i ==> final(out)@[j] == old(out)@[j],
{
    let region: &mut Vec<Pnt> = &mut out[i];
    region.push(q);
}

/// The label that stamping the regions in order gives to `p`: one more than
/// the index of the last region holding `p`, zero when none does.
pub open spec fn label_at(rs: Seq<Vec<Pnt>>, p: Pnt) -> int
    decreases rs.len(),
{
    if rs.len() == 0 {
        0
    } else if rs.last()@.contains(p) {
        rs.len() as int
    } else {
        label_at(rs.drop_last(), p)
    }
}

/// Stamps region index + 1 into a background-zero grid of the given shape.
#[verifier::loop_isolation(false)]
#[verifier::rlimit(100)]
pub fn regions2label(regions: &Vec<Vec<Pnt>>, shape: Pnt) -> (out: Matrix<u32>)
    requires
        shape.0 * shape.1 <= usize::MAX / 16,
        regions@.len() < u32::MAX,
        forall|i: int, k: int|
            0 <= i < regions@.len() && 0 <= k < regions@[i]@.len()
                ==> in_bounds(#[trigger] regions@[i]@[k], shape.0, shape.1),
    ensures
        out.wf(),
        out.rows == shape.0,
        out.cols == shape.1,
        forall|p: Pnt| in_bounds(p, shape.0, shape.1)
            ==> out@[flat(p, shape.1)] == label_at(regions@, p),
{
    let rows = shape.0;
    let cols = shape.1;
    let mut out = Matrix::<u32>::filled(rows, cols, 0);
    let mut i: usize = 0;
    while i < regions.len()
        invariant
            i <= regions@.len(),
            out.wf(),
            out.rows == rows,
            out.cols == cols,
            forall|p: Pnt| in_bounds(p, rows, cols)
                ==> out@[flat(p, cols)] == label_at(regions@.take(i as int), p),
        decreases regions@.len() - i,
    {
        let region = &regions[i];
        let mut k: usize = 0;
        while k < region.len()
            invariant
                k <= region@.len(),
                region@ == regions@[i as int]@,
                i < regions@.len(),
                out.wf(),
                out.rows == rows,
                out.cols == cols,
                forall|p: Pnt| in_bounds(p, rows, cols)
                    ==> out@[flat(p, cols)] == (if regions@[i as int]@.take(k as int).contains(p) {
                        i + 1
                    } else {
                        label_at(regions@.take(i as int), p)
                    }),
            decreases region@.len() - k,
        {
            let pt = region[k];
            proof {
                lemma_flat_in_range(pt, rows, cols);
                assert(regions@[i as int]@.take(k as int + 1)
                    =~= regions@[i as int]@.take(k as int).push(pt));
            }
            out.set(pt, (i + 1) as u32);
            k += 1;
        }
        proof {
            let taken = regions@.take(i as int + 1);
            assert(taken.drop_last() =~= regions@.take(i as int));
            assert(taken.last() == regions@[i as int]);
            assert(regions@[i as int]@.take(region@.len() as int) =~= regions@[i as int]@);
            assert forall|p: Pnt| in_bounds(p, rows, cols) implies
                out@[flat(p, cols)] == label_at(regions@.take(i as int + 1), p) by {
                if regions@[i as int]@.contains(p) {
                    assert(label_at(taken, p) == i + 1);
                } else {
                    assert(label_at(taken, p) == label_at(regions@.take(i as int), p));
                }
            }
        }
        i += 1;
    }
    proof {
        assert(regions@.take(regions@.len() as int) =~= regions@);
    }
    out
}

/// The largest value of a label sequence.
pub open spec fn seq_max(s: Seq<u32>) -> u32
    decreases s.len(),
{
    if s.len() == 0 {
        0u32
    } else if s.last() >= seq_max(s.drop_last()) {
        s.last()
    } else {
        seq_max(s.drop_last())
    }
}

/// Every element is bounded by the maximum.
proof fn lemma_seq_max_ge(s: Seq<u32>, i: int)
    requires
        0 <= i < s.len(),
    ensures
        s[i] <= seq_max(s),
    decreases s.len(),
{
    if i < s.len() - 1 {
        lemma_seq_max_ge(s.drop_last(), i);
    }
}

/// The ensures bundle of `label2regions`: `rs` decomposes the label grid
/// `v`, one region per label value, members listed in row-major order.
pub open spec fn decomposition_of(v: Seq<u32>, rows: usize, cols: usize, rs: Seq<Vec<Pnt>>) -> bool {
    &&& rs.len() == seq_max(v)
    &&& forall|k: int, t: int|
        0 <= k < rs.len() && 0 <= t < rs[k]@.len()
            ==> in_bounds(#[trigger] rs[k]@[t], rows, cols) && v[flat(rs[k]@[t], cols)] == k + 1
    &&& forall|k: int, t1: int, t2: int|
        0 <= k < rs.len() && 0 <= t1 < t2 < rs[k]@.len()
            ==> flat(#[trigger] rs[k]@[t1], cols) < flat(#[trigger] rs[k]@[t2], cols)
    &&& forall|p: Pnt|
        in_bounds(p, rows, cols) && v[flat(p, cols)] >= 1
            ==> (#[trigger] rs[v[flat(p, cols)] - 1])@.contains(p)
}

/// Groups the pixels of a label grid by label value: region `k` lists, in
/// row-major order, exactly the pixels labeled `k + 1`; the region count is
/// the grid's maximum label.
#[verifier::loop_isolation(false)]
#[verifier::rlimit(100)]
pub fn label2regions(label: &Matrix<u32>) -> (out: Vec<Vec<Pnt>>)
    requires
        label.wf(),
    ensures
        decomposition_of(label@, label.rows, label.cols, out@),
{
    let rows = label.rows;
    let cols = label.cols;
    let mut mx: u32 = 0;
    let mut r: usize = 0;
    while r < rows
        invariant
            r <= rows,
            mx == seq_max(label@.take(r as int * cols as int)),
        decreases rows - r,
    {
        let mut c: usize = 0;
        while c < cols
            invariant
                r < rows,
                c <= cols,
                mx == seq_max(label@.take(r as int * cols as int + c as int)),
            decreases cols - c,
        {
            let p: Pnt = (r, c);
            proof {
                lemma_flat_in_range(p, rows, cols);
                assert(flat(p, cols) == r as int * cols as int + c as int);
                assert(label@.take(flat(p, cols) + 1)
                    =~= label@.take(flat(p, cols)).push(label@[flat(p, cols)]));
                assert(label@.take(flat(p, cols) + 1).drop_last()
                    =~= label@.take(flat(p, cols)));
                assert(label@.take(flat(p, cols) + 1).last() == label@[flat(p, cols)]);
            }
            let v = label.get(p);
            if v > mx {
                mx = v;
            }
            c += 1;
        }
        proof {
            assert(r as int * cols as int + cols as int == (r + 1) as int * cols as int)
                by (nonlinear_arith);
        }
        r += 1;
    }
    proof {
        assert(label@.take(rows as int * cols as int) =~= label@);
    }

    let n = mx as usize;
    let mut out: Vec<Vec<Pnt>> = Vec::new();
    let mut k: usize = 0;
    while k < n
        invariant
            k <= n,
            out@.len() == k,
            forall|j: int| 0 <= j < k ==> (#[trigger] out@[j])@.len() == 0,
        decreases n - k,
    {
        out.push(Vec::new());
        k += 1;
    }

    let mut r2: usize = 0;
    while r2 < rows
        invariant
            r2 <= rows,
            out@.len() == n,
            n == seq_max(label@),
            forall|j: int, t: int|
                0 <= j < n && 0 <= t < out@[j]@.len()
                    ==> in_bounds(#[trigger] out@[j]@[t], rows, cols)
                        && label@[flat(out@[j]@[t], cols)] == j + 1
                        && flat(out@[j]@[t], cols) < r2 as int * cols as int,
            forall|j: int, t1: int, t2: int|
                0 <= j < n && 0 <= t1 < t2 < out@[j]@.len()
                    ==> flat(#[trigger] out@[j]@[t1], cols) < flat(#[trigger] out@[j]@[t2], cols),
            forall|p: Pnt|
                in_bounds(p, rows, cols) && flat(p, cols) < r2 as int * cols as int
                    && label@[flat(p, cols)] >= 1
                    ==> (#[trigger] out@[label@[flat(p, cols)] - 1])@.contains(p),
        decreases rows - r2,
    {
        let mut c: usize = 0;
        while c < cols
            invariant
                r2 < rows,
                c <= cols,
                out@.len() == n,
                n == seq_max(label@),
                forall|j: int, t: int|
                    0 <= j < n && 0 <= t < out@[j]@.len()
                        ==> in_bounds(#[trigger] out@[j]@[t], rows, cols)
                            && label@[flat(out@[j]@[t], cols)] == j + 1
                            && flat(out@[j]@[t], cols) < r2 as int * cols as int + c as int,
                forall|j: int, t1: int, t2: int|
                    0 <= j < n && 0 <= t1 < t2 < out@[j]@.len()
                        ==> flat(#[trigger] out@[j]@[t1], cols) < flat(
                            #[trigger] out@[j]@[t2],
                            cols,
                        ),
                forall|p: Pnt|
                    in_bounds(p, rows, cols) && flat(p, cols) < r2 as int * cols as int + c as int
                        && label@[flat(p, cols)] >= 1
                        ==> (#[trigger] out@[label@[flat(p, cols)] - 1])@.contains(p),
            decreases cols - c,
        {
            let p: Pnt = (r2, c);
            proof {
                lemma_flat_in_range(p, rows, cols);
                assert(flat(p, cols) == r2 as int * cols as int + c as int);
            }
            let v = label.get(p);
            if v > 0 {
                proof {
                    lemma_seq_max_ge(label@, flat(p, cols));
                }
                let ghost old_out = out@;
                region_push(&mut out, (v - 1) as usize, p);
                proof {
                    let j0 = v - 1;
                    assert(out@[j0 as int]@ =~= old_out[j0 as int]@.push(p));
                    assert forall|p2: Pnt|
                        in_bounds(p2, rows, cols) && flat(p2, cols) < r2 as int * cols as int
                            + c as int + 1 && label@[flat(p2, cols)] >= 1
                            implies (#[trigger] out@[label@[flat(p2, cols)] - 1])@.contains(
                        p2,
                    ) by {
                        lemma_seq_max_ge(label@, flat(p2, cols));
                        if p2 == p {
                            assert(out@[j0 as int]@.contains(p));
                        } else {
                            assert(flat(p2, cols) < r2 as int * cols as int + c as int);
                            assert(old_out[label@[flat(p2, cols)] - 1]@.contains(p2));
                            assert(out@[label@[flat(p2, cols)] - 1]
                                == old_out[label@[flat(p2, cols)] - 1]
                                || label@[flat(p2, cols)] - 1 == j0 as int);
                        }
                    }
                }
            }
            c += 1;
        }
        proof {
            assert(r2 as int * cols as int + cols as int == (r2 + 1) as int * cols as int)
                by (nonlinear_arith);
        }
        r2 += 1;
    }
    proof {
        assert forall|p: Pnt| in_bounds(p, rows, cols) implies
            flat(p, cols) < rows as int * cols as int by {
            lemma_flat_in_range(p, rows, cols);
        }
    }
    out
}

/// No region of the decomposition holds `p`, so stamping them labels `p`
/// zero.
proof fn lemma_label_at_absent(rs: Seq<Vec<Pnt>>, p: Pnt)
    requires
        forall|k: int| 0 <= k < rs.len() ==> !(#[trigger] rs[k])@.contains(p),
    ensures
        label_at(rs, p) == 0,
    decreases rs.len(),
{
    if rs.len() > 0 {
        assert(!rs[rs.len() - 1]@.contains(p));
        lemma_label_at_absent(rs.drop_last(), p);
    }
}

/// Exactly one region of the decomposition holds `p`, so stamping them
/// labels `p` with that region's one-based index.
proof fn lemma_label_at_unique(rs: Seq<Vec<Pnt>>, p: Pnt, i: int)
    requires
        0 <= i < rs.len(),
        rs[i]@.contains(p),
        forall|k: int| 0 <= k < rs.len() && k != i ==> !(#[trigger] rs[k])@.contains(p),
    ensures
        label_at(rs, p) == i + 1,
    decreases rs.len(),
{
    if i == rs.len() - 1 {
        assert(rs.last()@.contains(p));
    } else {
        assert(!rs[rs.len() - 1]@.contains(p));
        lemma_label_at_unique(rs.drop_last(), p, i);
    }
}

/// Round-trip law: decomposing a label grid into its regions and stamping
/// those regions back reproduces the grid exactly, pixel for pixel.
pub proof fn lemma_label_region_round_trip(v: Seq<u32>, rows: usize, cols: usize, rs: Seq<Vec<Pnt>>)
    requires
        v.len() == rows * cols,
        decomposition_of(v, rows, cols, rs),
    ensures
        forall|p: Pnt| in_bounds(p, rows, cols) ==> label_at(rs, p) == v[flat(p, cols)],
{
    assert forall|p: Pnt| in_bounds(p, rows, cols) implies label_at(rs, p) == v[flat(p, cols)] by {
        crate::types::lemma_flat_in_range(p, rows, cols);
        let lbl = v[flat(p, cols)];
        lemma_seq_max_ge(v, flat(p, cols));
        if lbl == 0 {
            assert forall|k: int| 0 <= k < rs.len() implies !(#[trigger] rs[k])@.contains(p) by {
                if rs[k]@.contains(p) {
                    let t = choose|t: int| 0 <= t < rs[k]@.len() && rs[k]@[t] == p;
                    assert(v[flat(rs[k]@[t], cols)] == k + 1);
                }
            }
            lemma_label_at_absent(rs, p);
        } else {
            assert(rs[lbl - 1]@.contains(p));
            assert forall|k: int| 0 <= k < rs.len() && k != lbl - 1 implies
                !(#[trigger] rs[k])@.contains(p) by {
                if rs[k]@.contains(p) {
                    let t = choose|t: int| 0 <= t < rs[k]@.len() && rs[k]@[t] == p;
                    assert(v[flat(rs[k]@[t], cols)] == k + 1);
                }
            }
            lemma_label_at_unique(rs, p, lbl - 1);
        }
    }
}

/// Sum of the row coordinates of a point list.
pub open spec fn sum_rows(s: Seq<Pnt>) -> int
    decreases s.len(),
{
    if s.len() == 0 {
        0
    } else {
        sum_rows(s.drop_last()) + s.last().0
    }
}

/// Sum of the column coordinates of a point list.
pub open spec fn sum_cols(s: Seq<Pnt>) -> int
    decreases s.len(),
{
    if s.len() == 0 {
        0
    } else {
        sum_cols(s.drop_last()) + s.last().1
    }
}

/// Coordinate sums only grow along a prefix.
proof fn lemma_sums_prefix(s: Seq<Pnt>, t: int)
    requires
        0 <= t <= s.len(),
    ensures
        sum_rows(s.take(t)) <= sum_rows(s),
        sum_cols(s.take(t)) <= sum_cols(s),
    decreases s.len() - t,
{
    if t == s.len() {
        assert(s.take(t) =~= s);
    } else {
        lemma_sums_prefix(s, t + 1);
        assert(s.take(t + 1).drop_last() =~= s.take(t));
        assert(s.take(t + 1).last() == s[t]);
    }
}

/// Bounded coordinates give bounded sums.
pub proof fn lemma_sums_bound_pub(s: Seq<Pnt>, rows: usize, cols: usize)
    requires
        forall|t: int| 0 <= t < s.len() ==> in_bounds(#[trigger] s[t], rows, cols),
    ensures
        sum_rows(s) <= s.len() * (rows - 1),
        sum_cols(s) <= s.len() * (cols - 1),
    decreases s.len(),
{
    if s.len() > 0 {
        lemma_sums_bound_pub(s.drop_last(), rows, cols);
        assert(s.len() * (rows - 1) == (s.len() - 1) * (rows - 1) + (rows - 1))
            by (nonlinear_arith);
        assert(s.len() * (cols - 1) == (s.len() - 1) * (cols - 1) + (cols - 1))
            by (nonlinear_arith);
    }
}

/// Coordinate sums are never negative.
proof fn lemma_sums_nonneg(s: Seq<Pnt>)
    ensures
        sum_rows(s) >= 0,
        sum_cols(s) >= 0,
    decreases s.len(),
{
    if s.len() > 0 {
        lemma_sums_nonneg(s.drop_last());
    }
}

/// The centroid of a region of in-bounds points is in bounds.
pub proof fn lemma_centroid_in_bounds(s: Seq<Pnt>, rows: usize, cols: usize)
    requires
        s.len() > 0,
        forall|t: int| 0 <= t < s.len() ==> in_bounds(#[trigger] s[t], rows, cols),
    ensures
        0 <= sum_rows(s) / (s.len() as int) < rows,
        0 <= sum_cols(s) / (s.len() as int) < cols,
{
    lemma_sums_bound_pub(s, rows, cols);
    lemma_sums_nonneg(s);
    assert(sum_rows(s) / (s.len() as int) <= rows - 1) by (nonlinear_arith)
        requires
            s.len() > 0,
            rows >= 1,
            0 <= sum_rows(s) <= s.len() * (rows - 1),
    ;
    assert(sum_cols(s) / (s.len() as int) <= cols - 1) by (nonlinear_arith)
        requires
            s.len() > 0,
            cols >= 1,
            0 <= sum_cols(s) <= s.len() * (cols - 1),
    ;
}

/// Integer-truncated mean coordinate of a region's members.
#[verifier::loop_isolation(false)]
pub fn centroids(region: &Vec<Pnt>) -> (r: Pnt)
    requires
        region@.len() > 0,
        sum_rows(region@) <= usize::MAX,
        sum_cols(region@) <= usize::MAX,
    ensures
        r.0 == sum_rows(region@) / (region@.len() as int),
        r.1 == sum_cols(region@) / (region@.len() as int),
{
    let n = region.len();
    let mut rsum: usize = 0;
    let mut csum: usize = 0;
    let mut t: usize = 0;
    while t < n
        invariant
            t <= n,
            rsum == sum_rows(region@.take(t as int)),
            csum == sum_cols(region@.take(t as int)),
        decreases n - t,
    {
        proof {
            assert(region@.take(t as int + 1).drop_last() =~= region@.take(t as int));
            assert(region@.take(t as int + 1).last() == region@[t as int]);
            lemma_sums_prefix(region@, t + 1);
            lemma_sums_nonneg(region@.take(t as int));
            lemma_sums_nonneg(region@.take(t as int + 1));
        }
        rsum = rsum + region[t].0;
        csum = csum + region[t].1;
        t += 1;
    }
    proof {
        assert(region@.take(n as int) =~= region@);
    }
    (rsum / n, csum / n)
}

} // verus!
