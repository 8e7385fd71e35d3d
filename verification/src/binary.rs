//! Binary-grid morphology: connected-component labeling, topological
//! thinning, junction detection, the edge-gradient mask and the multi-source
//! geodesic distance histogram.

use vstd::prelude::*;
use crate::types::{
    adj, connected, connected_within, count_false, flat, in_bounds, is_path,
    lemma_connected_refl, lemma_connected_step, lemma_connected_within_refl,
    lemma_connected_within_step, lemma_connected_within_unsnoc, lemma_count_false_update,
    lemma_flat_in_range, pt_of, with_seed,
    Matrix, Pnt,
};
use crate::helpers::{has_neighbour, neighbour_of, neighbour_pt};

verus! {

broadcast use {
    crate::types::lemma_flat_injective,
    crate::types::lemma_in_bounds_flat,
    vstd::seq_lib::group_seq_properties,
};

/// Removing the last element keeps the others: membership in a popped
/// sequence is membership in the remainder or equality with the popped one.
proof fn lemma_pop_contains(s: Seq<Pnt>)
    requires
        s.len() > 0,
    ensures
        forall|p: Pnt| #[trigger] s.contains(p) <==> s.drop_last().contains(p) || p == s.last(),
{
    assert forall|p: Pnt| #[trigger] s.contains(p) implies s.drop_last().contains(p) || p
        == s.last() by {
        let i = choose|i: int| 0 <= i < s.len() && s[i] == p;
        if i < s.len() - 1 {
            assert(s.drop_last()[i] == p);
        }
    }
    assert forall|p: Pnt| s.drop_last().contains(p) implies #[trigger] s.contains(p) by {
        let i = choose|i: int| 0 <= i < s.drop_last().len() && s.drop_last()[i] == p;
        assert(s[i] == p);
    }
    assert(s[s.len() - 1] == s.last());
}

/// Every member of `r` is an in-bounds foreground cell of the grid `v`.
pub open spec fn region_wf(v: Seq<bool>, rows: usize, cols: usize, r: Seq<Pnt>) -> bool {
    forall|k: int| 0 <= k < r.len()
        ==> in_bounds(#[trigger] r[k], rows, cols) && v[flat(r[k], cols)]
}

/// `r` is closed under 8-adjacency among foreground cells: a foreground
/// neighbour of a member is itself a member.
pub open spec fn region_closed(v: Seq<bool>, rows: usize, cols: usize, r: Seq<Pnt>) -> bool {
    forall|k: int, q: Pnt|
        0 <= k < r.len() && #[trigger] adj(r[k], q) && in_bounds(q, rows, cols) && v[flat(q, cols)]
            ==> r.contains(q)
}

/// Every member of `r` is connected to the region's first-discovered cell.
pub open spec fn region_rooted(v: Seq<bool>, rows: usize, cols: usize, r: Seq<Pnt>) -> bool {
    forall|k: int| 0 <= k < r.len() ==> connected(v, rows, cols, r[0], #[trigger] r[k])
}

/// No point lies in both sequences.
pub open spec fn regions_disjoint(a: Seq<Pnt>, b: Seq<Pnt>) -> bool {
    forall|p: Pnt| #[trigger] a.contains(p) ==> !b.contains(p)
}

/// Some region of `s` contains `p`.
pub open spec fn some_region_contains(s: Seq<Vec<Pnt>>, p: Pnt) -> bool {
    exists|i: int| 0 <= i < s.len() && (#[trigger] s[i])@.contains(p)
}

/// Every member of `r` is connected to `from` on the grid `v`.
pub open spec fn all_connected_from(
    v: Seq<bool>,
    rows: usize,
    cols: usize,
    from: Pnt,
    pts: Seq<Pnt>,
) -> bool {
    forall|k: int| 0 <= k < pts.len() ==> connected(v, rows, cols, from, #[trigger] pts[k])
}

/// An in-bounds 8-neighbour is reached by one of the eight direction steps.
pub proof fn lemma_adj_is_dir(p: Pnt, q: Pnt, sh: Pnt)
    requires
        in_bounds(p, sh.0, sh.1),
        in_bounds(q, sh.0, sh.1),
        adj(p, q),
    ensures
        exists|k: int|
            0 <= k < 8 && has_neighbour(p, k, sh) && #[trigger] neighbour_pt(p, k) == q,
{
    let dr = q.0 - p.0;
    let dc = q.1 - p.1;
    if dr == -1 && dc == 0 {
        assert(has_neighbour(p, 0, sh) && neighbour_pt(p, 0) == q);
    } else if dr == -1 && dc == 1 {
        assert(has_neighbour(p, 1, sh) && neighbour_pt(p, 1) == q);
    } else if dr == 0 && dc == 1 {
        assert(has_neighbour(p, 2, sh) && neighbour_pt(p, 2) == q);
    } else if dr == 1 && dc == 1 {
        assert(has_neighbour(p, 3, sh) && neighbour_pt(p, 3) == q);
    } else if dr == 1 && dc == 0 {
        assert(has_neighbour(p, 4, sh) && neighbour_pt(p, 4) == q);
    } else if dr == 1 && dc == -1 {
        assert(has_neighbour(p, 5, sh) && neighbour_pt(p, 5) == q);
    } else if dr == 0 && dc == -1 {
        assert(has_neighbour(p, 6, sh) && neighbour_pt(p, 6) == q);
    } else {
        assert(dr == -1 && dc == -1);
        assert(has_neighbour(p, 7, sh) && neighbour_pt(p, 7) == q);
    }
}


/// Depth-first collection of the 8-connected foreground component of
/// `origin`, marking every collected cell in `visited`.
#[verifier::loop_isolation(false)]
#[verifier::rlimit(100)]
fn connected_pixels(img: &Matrix<bool>, origin: Pnt, visited: &mut Matrix<bool>) -> (out: Vec<Pnt>)
    requires
        img.wf(),
        old(visited).wf(),
        old(visited).rows == img.rows,
        old(visited).cols == img.cols,
        in_bounds(origin, img.rows, img.cols),
        img@[flat(origin, img.cols)],
        !old(visited)@[flat(origin, img.cols)],
    ensures
        final(visited).wf(),
        final(visited).rows == img.rows,
        final(visited).cols == img.cols,
        forall|p: Pnt| in_bounds(p, img.rows, img.cols)
            ==> (final(visited)@[flat(p, img.cols)] <==> old(visited)@[flat(p, img.cols)]
                || out@.contains(p)),
        out@.len() >= 1,
        out@[0] == origin,
        out@.len() == count_false(old(visited)@) - count_false(final(visited)@),
        out@.no_duplicates(),
        region_wf(img@, img.rows, img.cols, out@),
        forall|k: int| 0 <= k < out@.len()
            ==> !old(visited)@[flat(#[trigger] out@[k], img.cols)],
        region_rooted(img@, img.rows, img.cols, out@),
        forall|k: int, q: Pnt|
            0 <= k < out@.len() && #[trigger] adj(out@[k], q) && in_bounds(q, img.rows, img.cols)
                && img@[flat(q, img.cols)]
                ==> final(visited)@[flat(q, img.cols)],
{
    let rows = img.rows;
    let cols = img.cols;
    let sh: Pnt = (rows, cols);
    let mut stack: Vec<Pnt> = Vec::new();
    stack.push(origin);
    proof {
        lemma_flat_in_range(origin, rows, cols);
    }
    proof {
        lemma_count_false_update(old(visited)@, flat(origin, cols));
    }
    visited.set(origin, true);
    proof {
        lemma_connected_refl(img@, rows, cols, origin);
    }
    let mut out: Vec<Pnt> = Vec::new();
    while stack.len() > 0
        invariant
            visited.wf(),
            visited.rows == rows,
            visited.cols == cols,
            forall|p: Pnt| in_bounds(p, rows, cols)
                ==> (visited@[flat(p, cols)] <==> old(visited)@[flat(p, cols)]
                    || stack@.contains(p) || out@.contains(p)),
            region_wf(img@, rows, cols, stack@),
            region_wf(img@, rows, cols, out@),
            forall|k: int| 0 <= k < stack@.len()
                ==> !old(visited)@[flat(#[trigger] stack@[k], cols)],
            forall|k: int| 0 <= k < out@.len()
                ==> !old(visited)@[flat(#[trigger] out@[k], cols)],
            stack@.no_duplicates(),
            out@.no_duplicates(),
            forall|p: Pnt| #[trigger] stack@.contains(p) ==> !out@.contains(p),
            all_connected_from(img@, rows, cols, origin, stack@),
            all_connected_from(img@, rows, cols, origin, out@),
            stack@.len() + out@.len() == count_false(old(visited)@) - count_false(visited@),
            forall|k: int, q: Pnt|
                0 <= k < out@.len() && #[trigger] adj(out@[k], q) && in_bounds(q, rows, cols)
                    && img@[flat(q, cols)]
                    ==> visited@[flat(q, cols)],
            out@.len() == 0 ==> stack@ =~= seq![origin],
            out@.len() > 0 ==> out@[0] == origin,
        decreases count_false(visited@), stack@.len(),
    {
        let ghost c0 = count_false(visited@);
        let ghost s0 = stack@.len();
        let ghost stack_snap = stack@;
        let ghost out_prev = out@;
        let pt = stack.pop().unwrap();
        proof {
            assert(stack@ =~= stack_snap.drop_last());
            lemma_pop_contains(stack_snap);
            assert(stack_snap.contains(pt));
            let i0 = choose|i: int| 0 <= i < stack_snap.len() && stack_snap[i] == pt;
            assert(connected(img@, rows, cols, origin, stack_snap[i0]));
        }
        out.push(pt);
        proof {
            assert forall|p: Pnt| #[trigger] stack@.contains(p) implies !out@.contains(p) by {
                let i = choose|i: int| 0 <= i < stack@.len() && stack@[i] == p;
                assert(stack_snap[i] == p);
                assert(stack_snap.contains(p));
                if p == pt {
                    assert(stack_snap[stack_snap.len() - 1] == pt);
                    assert(false);
                }
                assert(!out_prev.contains(p));
            }
            assert forall|p: Pnt| in_bounds(p, rows, cols) implies
                (visited@[flat(p, cols)] <==> old(visited)@[flat(p, cols)]
                    || stack@.contains(p) || out@.contains(p)) by {
                assert(stack_snap.contains(p) <==> stack@.contains(p) || p == pt);
                assert(out@.contains(p) <==> out_prev.contains(p) || p == pt);
            }
        }
        let ghost out_snap = out@;
        let mut k: usize = 0;
        while k < 8
            invariant
                k <= 8,
                out@ == out_snap,
                visited.wf(),
                visited.rows == rows,
                visited.cols == cols,
                visited@[flat(pt, cols)],
                forall|p: Pnt| in_bounds(p, rows, cols)
                    ==> (visited@[flat(p, cols)] <==> old(visited)@[flat(p, cols)]
                        || stack@.contains(p) || out@.contains(p)),
                region_wf(img@, rows, cols, stack@),
                forall|kk: int| 0 <= kk < stack@.len()
                    ==> !old(visited)@[flat(#[trigger] stack@[kk], cols)],
                stack@.no_duplicates(),
                forall|p: Pnt| #[trigger] stack@.contains(p) ==> !out@.contains(p),
                all_connected_from(img@, rows, cols, origin, stack@),
                stack@.len() + out@.len() == count_false(old(visited)@) - count_false(visited@),
                forall|kk: int, q: Pnt|
                    0 <= kk < out@.len() - 1 && #[trigger] adj(out@[kk], q)
                        && in_bounds(q, rows, cols) && img@[flat(q, cols)]
                        ==> visited@[flat(q, cols)],
                forall|d: int|
                    0 <= d < k && has_neighbour(pt, d, sh)
                        ==> in_bounds(#[trigger] neighbour_pt(pt, d), rows, cols)
                            && (img@[flat(neighbour_pt(pt, d), cols)]
                                ==> visited@[flat(neighbour_pt(pt, d), cols)]),
                count_false(visited@) <= c0,
                stack@.len() >= s0 - 1,
                count_false(visited@) == c0 ==> stack@.len() == s0 - 1,
            decreases 8 - k,
        {
            let nb = neighbour_of(pt, k, sh);
            match nb {
                Some(q) => {
                    proof {
                        lemma_flat_in_range(q, rows, cols);
                    }
                    if img.get(q) && !visited.get(q) {
                        proof {
                            lemma_count_false_update(visited@, flat(q, cols));
                            lemma_connected_step(img@, rows, cols, origin, pt, q);
                        }
                        stack.push(q);
                        visited.set(q, true);
                    }
                },
                None => {},
            }
            proof {
                if has_neighbour(pt, k as int, sh) && img@[flat(neighbour_pt(pt, k as int), cols)] {
                    assert(nb == Some(neighbour_pt(pt, k as int)));
                    assert(visited@[flat(neighbour_pt(pt, k as int), cols)]);
                }
            }
            k += 1;
        }
        proof {
            assert forall|kk: int, q: Pnt|
                0 <= kk < out@.len() && #[trigger] adj(out@[kk], q) && in_bounds(q, rows, cols)
                    && img@[flat(q, cols)] implies visited@[flat(q, cols)] by {
                if kk == out@.len() - 1 {
                    assert(out@[kk] == pt);
                    lemma_adj_is_dir(pt, q, sh);
                    let d = choose|d: int|
                        0 <= d < 8 && has_neighbour(pt, d, sh) && #[trigger] neighbour_pt(pt, d)
                            == q;
                    assert(visited@[flat(neighbour_pt(pt, d), cols)]);
                }
            }
        }
    }
    out
}

/// The full labeling contract: the regions consist of in-bounds foreground
/// pixels, cover every foreground pixel, are pairwise disjoint, nonempty and
/// duplicate-free, and each is 8-connected (every member is joined to the
/// region's first pixel) and adjacency-closed (a foreground neighbour of a
/// member belongs to the same region).
pub open spec fn valid_labeling(v: Seq<bool>, rows: usize, cols: usize, s: Seq<Vec<Pnt>>) -> bool {
    &&& forall|i: int| 0 <= i < s.len() ==> (#[trigger] s[i])@.len() >= 1
    &&& forall|i: int| 0 <= i < s.len() ==> (#[trigger] s[i])@.no_duplicates()
    &&& forall|i: int| 0 <= i < s.len() ==> region_wf(v, rows, cols, (#[trigger] s[i])@)
    &&& forall|p: Pnt|
        in_bounds(p, rows, cols) && v[flat(p, cols)] ==> some_region_contains(s, p)
    &&& forall|i: int, j: int|
        0 <= i < s.len() && 0 <= j < s.len() && i != j
            ==> regions_disjoint((#[trigger] s[i])@, (#[trigger] s[j])@)
    &&& forall|i: int| 0 <= i < s.len() ==> region_rooted(v, rows, cols, (#[trigger] s[i])@)
    &&& forall|i: int| 0 <= i < s.len() ==> region_closed(v, rows, cols, (#[trigger] s[i])@)
}

/// Partitions the foreground of a boolean grid into its maximal 8-connected
/// components, emitted in row-major order of their first-discovered pixel.
#[verifier::loop_isolation(false)]
#[verifier::rlimit(100)]
pub fn conncomps(img: &Matrix<bool>) -> (out: Vec<Vec<Pnt>>)
    requires
        img.wf(),
    ensures
        valid_labeling(img@, img.rows, img.cols, out@),
        forall|i: int| 0 <= i < out@.len()
            ==> (#[trigger] out@[i])@.len() <= img.rows * img.cols,
        out@.len() <= img.rows * img.cols,
        forall|i: int, k: int|
            0 <= i < out@.len() && 0 <= k < out@[i]@.len()
                ==> flat(out@[i]@[0], img.cols) <= flat(#[trigger] out@[i]@[k], img.cols),
        forall|i: int, j: int|
            0 <= i < j < out@.len()
                ==> flat((#[trigger] out@[i])@[0], img.cols) < flat(
                    (#[trigger] out@[j])@[0],
                    img.cols,
                ),
{
    let rows = img.rows;
    let cols = img.cols;
    let mut visited = Matrix::<bool>::filled(rows, cols, false);
    proof {
        crate::types::lemma_count_false_all(visited@);
    }
    let mut out: Vec<Vec<Pnt>> = Vec::new();
    let mut r: usize = 0;
    while r < rows
        invariant
            visited.wf(),
            visited.rows == rows,
            visited.cols == cols,
            r <= rows,
            forall|p: Pnt| in_bounds(p, rows, cols)
                ==> (visited@[flat(p, cols)] <==> some_region_contains(out@, p)),
            forall|i: int| 0 <= i < out@.len() ==> (#[trigger] out@[i])@.len() >= 1,
            forall|i: int| 0 <= i < out@.len() ==> (#[trigger] out@[i])@.no_duplicates(),
            forall|i: int| 0 <= i < out@.len()
                ==> region_wf(img@, rows, cols, (#[trigger] out@[i])@),
            forall|i: int, j: int|
                0 <= i < out@.len() && 0 <= j < out@.len() && i != j
                    ==> regions_disjoint((#[trigger] out@[i])@, (#[trigger] out@[j])@),
            forall|i: int| 0 <= i < out@.len()
                ==> region_rooted(img@, rows, cols, (#[trigger] out@[i])@),
            forall|i: int| 0 <= i < out@.len()
                ==> region_closed(img@, rows, cols, (#[trigger] out@[i])@),
            forall|p: Pnt|
                in_bounds(p, rows, cols) && p.0 < r && img@[flat(p, cols)]
                    ==> visited@[flat(p, cols)],
            forall|i: int| 0 <= i < out@.len()
                ==> (#[trigger] out@[i])@.len() <= rows * cols,
            out@.len() + count_false(visited@) <= rows * cols,
            forall|i: int, k: int|
                0 <= i < out@.len() && 0 <= k < out@[i]@.len()
                    ==> flat(out@[i]@[0], cols) <= flat(#[trigger] out@[i]@[k], cols),
            forall|i: int, j: int|
                0 <= i < j < out@.len()
                    ==> flat((#[trigger] out@[i])@[0], cols) < flat((#[trigger] out@[j])@[0], cols),
            forall|i: int| 0 <= i < out@.len()
                ==> flat((#[trigger] out@[i])@[0], cols) < r * cols,
        decreases rows - r,
    {
        let mut c: usize = 0;
        while c < cols
            invariant
                c <= cols,
                visited.wf(),
                visited.rows == rows,
                visited.cols == cols,
                forall|p: Pnt| in_bounds(p, rows, cols)
                    ==> (visited@[flat(p, cols)] <==> some_region_contains(out@, p)),
                forall|i: int| 0 <= i < out@.len() ==> (#[trigger] out@[i])@.len() >= 1,
                forall|i: int| 0 <= i < out@.len() ==> (#[trigger] out@[i])@.no_duplicates(),
                forall|i: int| 0 <= i < out@.len()
                    ==> region_wf(img@, rows, cols, (#[trigger] out@[i])@),
                forall|i: int, j: int|
                    0 <= i < out@.len() && 0 <= j < out@.len() && i != j
                        ==> regions_disjoint((#[trigger] out@[i])@, (#[trigger] out@[j])@),
                forall|i: int| 0 <= i < out@.len()
                    ==> region_rooted(img@, rows, cols, (#[trigger] out@[i])@),
                forall|i: int| 0 <= i < out@.len()
                    ==> region_closed(img@, rows, cols, (#[trigger] out@[i])@),
                forall|p: Pnt|
                    in_bounds(p, rows, cols) && p.0 < r && img@[flat(p, cols)]
                        ==> visited@[flat(p, cols)],
                forall|p: Pnt|
                    in_bounds(p, rows, cols) && p.0 == r && p.1 < c && img@[flat(p, cols)]
                        ==> visited@[flat(p, cols)],
                forall|i: int| 0 <= i < out@.len()
                    ==> (#[trigger] out@[i])@.len() <= rows * cols,
                out@.len() + count_false(visited@) <= rows * cols,
                forall|i: int, k: int|
                    0 <= i < out@.len() && 0 <= k < out@[i]@.len()
                        ==> flat(out@[i]@[0], cols) <= flat(#[trigger] out@[i]@[k], cols),
                forall|i: int, j: int|
                    0 <= i < j < out@.len()
                        ==> flat((#[trigger] out@[i])@[0], cols) < flat(
                            (#[trigger] out@[j])@[0],
                            cols,
                        ),
                forall|i: int| 0 <= i < out@.len()
                    ==> flat((#[trigger] out@[i])@[0], cols) < r * cols + c,
            decreases cols - c,
        {
            let p: Pnt = (r, c);
            proof {
                lemma_flat_in_range(p, rows, cols);
            }
            if img.get(p) && !visited.get(p) {
                let ghost old_out = out@;
                let ghost old_vis = visited@;
                let cps = connected_pixels(img, p, &mut visited);
                proof {
                    crate::types::lemma_count_false_le_len(old_vis);
                    crate::types::lemma_count_false_le_len(visited@);
                    assert(cps@.len() <= rows * cols);
                    assert(cps@[0] == p);
                    assert(flat(p, cols) == r * cols + c);
                    assert forall|k: int| 0 <= k < cps@.len() implies
                        flat(p, cols) <= flat(#[trigger] cps@[k], cols) by {
                        let q = cps@[k];
                        assert(in_bounds(q, rows, cols) && img@[flat(q, cols)]);
                        assert(!old_vis[flat(q, cols)]);
                        if flat(q, cols) < r * cols + c {
                            crate::types::lemma_flat_lex(q, r, c, cols);
                            assert(old_vis[flat(q, cols)]);
                            assert(false);
                        }
                    }
                    assert(cps@.contains(p));
                    // Members of the new region were unvisited before the
                    // traversal, so they lie in no earlier region.
                    assert forall|i: int| 0 <= i < old_out.len()
                        implies regions_disjoint((#[trigger] old_out[i])@, cps@) by {
                        assert forall|q: Pnt| #[trigger] old_out[i]@.contains(q)
                            implies !cps@.contains(q) by {
                            assert(some_region_contains(old_out, q));
                            let kk = choose|kk: int|
                                0 <= kk < old_out[i]@.len() && old_out[i]@[kk] == q;
                            assert(in_bounds(q, rows, cols));
                            assert(old_vis[flat(q, cols)]);
                            if cps@.contains(q) {
                                let l = choose|l: int| 0 <= l < cps@.len() && cps@[l] == q;
                                assert(!old_vis[flat(cps@[l], cols)]);
                            }
                        }
                    }
                    assert forall|i: int| 0 <= i < old_out.len()
                        implies regions_disjoint(cps@, (#[trigger] old_out[i])@) by {
                        assert forall|q: Pnt| #[trigger] cps@.contains(q)
                            implies !old_out[i]@.contains(q) by {
                            if old_out[i]@.contains(q) {
                                assert(!cps@.contains(q));
                            }
                        }
                    }
                    // A foreground neighbour of a new member is visited after
                    // the traversal; were it in an earlier region, that
                    // region's closure would capture the member itself,
                    // contradicting disjointness.
                    assert forall|kk: int, q: Pnt|
                        0 <= kk < cps@.len() && #[trigger] adj(cps@[kk], q)
                            && in_bounds(q, rows, cols) && img@[flat(q, cols)]
                            implies cps@.contains(q) by {
                        assert(visited@[flat(q, cols)]);
                        if !cps@.contains(q) {
                            assert(old_vis[flat(q, cols)]);
                            assert(some_region_contains(old_out, q));
                            let i = choose|i: int|
                                0 <= i < old_out.len() && (#[trigger] old_out[i])@.contains(q);
                            let l = choose|l: int|
                                0 <= l < old_out[i]@.len() && old_out[i]@[l] == q;
                            let m = cps@[kk];
                            assert(adj(q, m));
                            assert(region_closed(img@, rows, cols, old_out[i]@));
                            assert(old_out[i]@.contains(m));
                            assert(old_out[i]@.contains(m) ==> !cps@.contains(m));
                            assert(false);
                        }
                    }
                }
                out.push(cps);
                proof {
                    assert(out@.drop_last() =~= old_out);
                    assert forall|pp: Pnt| in_bounds(pp, rows, cols)
                        implies (visited@[flat(pp, cols)] <==> some_region_contains(out@, pp)) by {
                        if visited@[flat(pp, cols)] {
                            if old_vis[flat(pp, cols)] {
                                assert(some_region_contains(old_out, pp));
                                let i = choose|i: int|
                                    0 <= i < old_out.len() && (#[trigger] old_out[i])@.contains(pp);
                                assert(out@[i]@.contains(pp));
                            } else {
                                assert(cps@.contains(pp));
                                assert(out@[out@.len() - 1]@.contains(pp));
                            }
                        }
                        if some_region_contains(out@, pp) {
                            let i = choose|i: int|
                                0 <= i < out@.len() && (#[trigger] out@[i])@.contains(pp);
                            if i < out@.len() - 1 {
                                assert(old_out[i]@.contains(pp));
                                assert(some_region_contains(old_out, pp));
                                assert(old_vis[flat(pp, cols)]);
                            } else {
                                assert(cps@.contains(pp));
                            }
                        }
                    }
                    assert forall|i: int| 0 <= i < out@.len()
                        implies region_closed(img@, rows, cols, (#[trigger] out@[i])@) by {
                        if i < out@.len() - 1 {
                            assert(out@[i] == old_out[i]);
                        } else {
                            assert(out@[i] == cps);
                        }
                    }
                }
            }
            c += 1;
        }
        proof {
            assert(r * cols + cols == (r + 1) * cols) by (nonlinear_arith);
        }
        r += 1;
    }
    out
}

/// A foreground path that starts inside an adjacency-closed region never
/// leaves it.
proof fn lemma_path_stays_in_region(
    v: Seq<bool>,
    rows: usize,
    cols: usize,
    r: Seq<Pnt>,
    path: Seq<Pnt>,
)
    requires
        region_closed(v, rows, cols, r),
        is_path(v, rows, cols, path),
        r.contains(path[0]),
    ensures
        r.contains(path.last()),
    decreases path.len(),
{
    if path.len() == 1 {
        assert(path.last() == path[0]);
    } else {
        let k = choose|k: int| 0 <= k < r.len() && r[k] == path[0];
        assert(adj(path[0], path[1]));
        assert(in_bounds(path[1], rows, cols) && v[flat(path[1], cols)]);
        assert(adj(r[k], path[1]));
        assert(r.contains(path[1]));
        let rest = path.drop_first();
        assert forall|t: int| 0 <= t < rest.len() implies
            in_bounds(#[trigger] rest[t], rows, cols) && v[flat(rest[t], cols)] by {
            assert(rest[t] == path[t + 1]);
        }
        assert forall|t: int| 0 <= t < rest.len() - 1 implies adj(#[trigger] rest[t], rest[t + 1]) by {
            assert(rest[t] == path[t + 1] && rest[t + 1] == path[t + 2]);
            assert(adj(path[t + 1], path[t + 2]));
        }
        assert(is_path(v, rows, cols, rest));
        assert(rest[0] == path[1]);
        lemma_path_stays_in_region(v, rows, cols, r, rest);
        assert(rest.last() == path.last());
    }
}

/// Labeling law: under any valid labeling of a grid, two foreground pixels
/// lie in a common region exactly when they are joined by an 8-connected
/// foreground path.
pub proof fn lemma_same_region_iff_connected(
    v: Seq<bool>,
    rows: usize,
    cols: usize,
    s: Seq<Vec<Pnt>>,
    a: Pnt,
    b: Pnt,
)
    requires
        valid_labeling(v, rows, cols, s),
        in_bounds(a, rows, cols),
        v[flat(a, cols)],
        in_bounds(b, rows, cols),
        v[flat(b, cols)],
    ensures
        connected(v, rows, cols, a, b) <==> exists|i: int|
            0 <= i < s.len() && (#[trigger] s[i])@.contains(a) && s[i]@.contains(b),
{
    if connected(v, rows, cols, a, b) {
        assert(some_region_contains(s, a));
        let i = choose|i: int| 0 <= i < s.len() && (#[trigger] s[i])@.contains(a);
        let path = choose|path: Seq<Pnt>|
            is_path(v, rows, cols, path) && path.first() == a && path.last() == b;
        assert(region_closed(v, rows, cols, s[i]@));
        lemma_path_stays_in_region(v, rows, cols, s[i]@, path);
        assert(s[i]@.contains(a) && s[i]@.contains(b));
    }
    if exists|i: int| 0 <= i < s.len() && (#[trigger] s[i])@.contains(a) && s[i]@.contains(b) {
        let i = choose|i: int|
            0 <= i < s.len() && (#[trigger] s[i])@.contains(a) && s[i]@.contains(b);
        let r = s[i]@;
        let ka = choose|k: int| 0 <= k < r.len() && r[k] == a;
        let kb = choose|k: int| 0 <= k < r.len() && r[k] == b;
        assert(region_rooted(v, rows, cols, r));
        assert(connected(v, rows, cols, r[0], r[ka]));
        assert(connected(v, rows, cols, r[0], r[kb]));
        crate::types::lemma_connected_sym(v, rows, cols, r[0], a);
        crate::types::lemma_connected_trans(v, rows, cols, a, r[0], b);
    }
}

/// Scan-order invariance of the partition: in any two valid labelings of
/// the same grid, the region holding a given foreground pixel has exactly
/// the same members.
pub proof fn lemma_labeling_canonical(
    v: Seq<bool>,
    rows: usize,
    cols: usize,
    s1: Seq<Vec<Pnt>>,
    s2: Seq<Vec<Pnt>>,
    i1: int,
    i2: int,
    p: Pnt,
)
    requires
        valid_labeling(v, rows, cols, s1),
        valid_labeling(v, rows, cols, s2),
        0 <= i1 < s1.len(),
        0 <= i2 < s2.len(),
        s1[i1]@.contains(p),
        s2[i2]@.contains(p),
    ensures
        forall|q: Pnt| s1[i1]@.contains(q) <==> s2[i2]@.contains(q),
{
    let ka = choose|k: int| 0 <= k < s1[i1]@.len() && s1[i1]@[k] == p;
    assert(in_bounds(p, rows, cols) && v[flat(p, cols)]);
    assert forall|q: Pnt| s1[i1]@.contains(q) implies s2[i2]@.contains(q) by {
        let kq = choose|k: int| 0 <= k < s1[i1]@.len() && s1[i1]@[k] == q;
        assert(in_bounds(q, rows, cols) && v[flat(q, cols)]);
        lemma_same_region_iff_connected(v, rows, cols, s1, p, q);
        assert(connected(v, rows, cols, p, q));
        lemma_same_region_iff_connected(v, rows, cols, s2, p, q);
        let j = choose|j: int|
            0 <= j < s2.len() && (#[trigger] s2[j])@.contains(p) && s2[j]@.contains(q);
        if j != i2 {
            assert(regions_disjoint(s2[j]@, s2[i2]@));
            assert(false);
        }
    }
    assert forall|q: Pnt| s2[i2]@.contains(q) implies s1[i1]@.contains(q) by {
        let kq = choose|k: int| 0 <= k < s2[i2]@.len() && s2[i2]@[k] == q;
        assert(in_bounds(q, rows, cols) && v[flat(q, cols)]);
        lemma_same_region_iff_connected(v, rows, cols, s2, p, q);
        assert(connected(v, rows, cols, p, q));
        lemma_same_region_iff_connected(v, rows, cols, s1, p, q);
        let j = choose|j: int|
            0 <= j < s1.len() && (#[trigger] s1[j])@.contains(p) && s1[j]@.contains(q);
        if j != i1 {
            assert(regions_disjoint(s1[j]@, s1[i1]@));
            assert(false);
        }
    }
}

/// The `k`-th ring neighbour of `p` is an in-bounds foreground cell;
/// off-grid neighbours read as background.
pub open spec fn ring(v: Seq<bool>, sh: Pnt, p: Pnt, k: int) -> bool {
    has_neighbour(p, k, sh) && v[flat(neighbour_pt(p, k), sh.1)]
}

/// Number of occupied ring neighbours among directions `0 .. n`.
pub open spec fn ring_count_upto(v: Seq<bool>, sh: Pnt, p: Pnt, n: int) -> int
    decreases n,
{
    if n <= 0 {
        0
    } else {
        ring_count_upto(v, sh, p, n - 1) + if ring(v, sh, p, n - 1) {
            1int
        } else {
            0int
        }
    }
}

/// Number of occupied ring neighbours of `p`.
pub open spec fn ring_count(v: Seq<bool>, sh: Pnt, p: Pnt) -> int {
    ring_count_upto(v, sh, p, 8)
}

/// A background-to-foreground step from ring position `k` to its clockwise
/// successor.
pub open spec fn ring_step(v: Seq<bool>, sh: Pnt, p: Pnt, k: int) -> bool {
    !ring(v, sh, p, k) && ring(v, sh, p, if k == 7 { 0int } else { k + 1 })
}

/// Number of background-to-foreground steps among ring positions `0 .. n`.
pub open spec fn transitions_upto(v: Seq<bool>, sh: Pnt, p: Pnt, n: int) -> int
    decreases n,
{
    if n <= 0 {
        0
    } else {
        transitions_upto(v, sh, p, n - 1) + if ring_step(v, sh, p, n - 1) {
            1int
        } else {
            0int
        }
    }
}

/// Number of background-to-foreground steps around the full ring of `p`.
pub open spec fn transitions(v: Seq<bool>, sh: Pnt, p: Pnt) -> int {
    transitions_upto(v, sh, p, 8)
}

/// Removal candidate of one thinning sub-pass: ring occupancy within
/// `[2, 6]`, exactly one ring transition, and both connectivity-preserving
/// neighbour triples of the sub-pass incomplete.
pub open spec fn thin_eligible(
    v: Seq<bool>,
    sh: Pnt,
    p: Pnt,
    o: (usize, usize, usize, usize, usize, usize),
) -> bool {
    &&& 2 <= ring_count(v, sh, p) <= 6
    &&& transitions(v, sh, p) == 1
    &&& !(ring(v, sh, p, o.0 as int) && ring(v, sh, p, o.1 as int) && ring(v, sh, p, o.2 as int))
    &&& !(ring(v, sh, p, o.3 as int) && ring(v, sh, p, o.4 as int) && ring(v, sh, p, o.5 as int))
}


/// Counting half of scan-order invariance: no valid labeling has more
/// regions than another, by mapping each region to the region of the other
/// labeling that holds its first pixel.
proof fn lemma_labeling_count_le(
    v: Seq<bool>,
    rows: usize,
    cols: usize,
    s1: Seq<Vec<Pnt>>,
    s2: Seq<Vec<Pnt>>,
)
    requires
        valid_labeling(v, rows, cols, s1),
        valid_labeling(v, rows, cols, s2),
    ensures
        s1.len() <= s2.len(),
{
    let n1 = s1.len() as int;
    let n2 = s2.len() as int;
    let f: spec_fn(int) -> int = |i1: int|
        choose|j2: int| 0 <= j2 < s2.len() && (#[trigger] s2[j2])@.contains(s1[i1]@[0]);
    let xs = vstd::set_lib::set_int_range(0, n1);
    vstd::set_lib::lemma_int_range(0, n1);
    vstd::set_lib::lemma_int_range(0, n2);
    assert forall|i1: int| xs.contains(i1) implies 0 <= #[trigger] f(i1) < n2
        && s2[f(i1)]@.contains(s1[i1]@[0]) by {
        let seed = s1[i1]@[0];
        assert(in_bounds(seed, rows, cols) && v[flat(seed, cols)]);
        assert(some_region_contains(s2, seed));
    }
    assert(vstd::relations::injective_on(f, xs)) by {
        assert forall|a: int, b: int|
            xs.contains(a) && xs.contains(b) && #[trigger] f(a) == #[trigger] f(b)
                implies a == b by {
            let sa = s1[a]@[0];
            let sb = s1[b]@[0];
            let j = f(a);
            assert(s2[j]@.contains(sa) && s2[j]@.contains(sb));
            assert(in_bounds(sa, rows, cols) && v[flat(sa, cols)]);
            assert(in_bounds(sb, rows, cols) && v[flat(sb, cols)]);
            lemma_same_region_iff_connected(v, rows, cols, s2, sa, sb);
            assert(connected(v, rows, cols, sa, sb));
            lemma_same_region_iff_connected(v, rows, cols, s1, sa, sb);
            let j1 = choose|j1: int|
                0 <= j1 < s1.len() && (#[trigger] s1[j1])@.contains(sa) && s1[j1]@.contains(sb);
            assert(s1[a]@.contains(sa));
            assert(s1[b]@.contains(sb));
            if j1 != a {
                assert(regions_disjoint(s1[j1]@, s1[a]@));
                assert(false);
            }
            if j1 != b {
                assert(regions_disjoint(s1[j1]@, s1[b]@));
                assert(false);
            }
        }
    }
    let ys = xs.map(f);
    vstd::set_lib::lemma_map_size(xs, ys, f);
    assert(ys.subset_of(vstd::set_lib::set_int_range(0, n2))) by {
        assert forall|y: int| ys.contains(y) implies
            vstd::set_lib::set_int_range(0, n2).contains(y) by {
            let a = choose|a: int| xs.contains(a) && #[trigger] f(a) == y;
            assert(0 <= f(a) < n2);
        }
    }
    vstd::set_lib::lemma_len_subset(ys, vstd::set_lib::set_int_range(0, n2));
}

/// Scan-order invariance of the region count: any two valid labelings of
/// the same grid have the same number of regions.
pub proof fn lemma_labeling_count_canonical(
    v: Seq<bool>,
    rows: usize,
    cols: usize,
    s1: Seq<Vec<Pnt>>,
    s2: Seq<Vec<Pnt>>,
)
    requires
        valid_labeling(v, rows, cols, s1),
        valid_labeling(v, rows, cols, s2),
    ensures
        s1.len() == s2.len(),
{
    lemma_labeling_count_le(v, rows, cols, s1, s2);
    lemma_labeling_count_le(v, rows, cols, s2, s1);
}

/// One simultaneous-removal sub-pass as a pure map: a cell survives iff it
/// was foreground and not a removal candidate of the scanned grid.
pub open spec fn thin_pass(
    v: Seq<bool>,
    rows: usize,
    cols: usize,
    o: (usize, usize, usize, usize, usize, usize),
) -> Seq<bool> {
    Seq::new(v.len(), |t: int| v[t] && !thin_eligible(v, (rows, cols), pt_of(t, cols), o))
}

/// One full thinning pass: the two sub-passes in order.
pub open spec fn thin_round(v: Seq<bool>, rows: usize, cols: usize) -> Seq<bool> {
    thin_pass(
        thin_pass(v, rows, cols, (0usize, 2usize, 4usize, 2usize, 4usize, 6usize)),
        rows,
        cols,
        (0usize, 2usize, 6usize, 0usize, 4usize, 6usize),
    )
}

/// `n` full thinning passes.
pub open spec fn thin_rounds(v: Seq<bool>, rows: usize, cols: usize, n: nat) -> Seq<bool>
    decreases n,
{
    if n == 0 {
        v
    } else {
        thin_round(thin_rounds(v, rows, cols, (n - 1) as nat), rows, cols)
    }
}

/// A fixed point of one pass is a fixed point of any number of passes.
proof fn lemma_thin_fixed(v: Seq<bool>, rows: usize, cols: usize, n: nat)
    requires
        thin_round(v, rows, cols) == v,
    ensures
        thin_rounds(v, rows, cols, n) == v,
    decreases n,
{
    if n > 0 {
        lemma_thin_fixed(v, rows, cols, (n - 1) as nat);
    }
}

/// Passes compose: `a + b` passes are `b` passes after `a`.
proof fn lemma_thin_rounds_add(v: Seq<bool>, rows: usize, cols: usize, a: nat, b: nat)
    ensures
        thin_rounds(v, rows, cols, a + b) == thin_rounds(thin_rounds(v, rows, cols, a), rows, cols, b),
    decreases b,
{
    if b > 0 {
        lemma_thin_rounds_add(v, rows, cols, a, (b - 1) as nat);
        assert(a + b == (a + (b - 1) as nat) + 1);
    }
}

/// Reads the full 8-neighbour occupancy ring of `pt`.
#[verifier::loop_isolation(false)]
fn read_ring(out: &Matrix<bool>, pt: Pnt, sh: Pnt) -> (pxs: Vec<bool>)
    requires
        out.wf(),
        sh == (out.rows, out.cols),
        in_bounds(pt, out.rows, out.cols),
    ensures
        pxs@.len() == 8,
        forall|k: int| 0 <= k < 8 ==> pxs@[k] == ring(out@, sh, pt, k),
{
    let mut pxs: Vec<bool> = Vec::new();
    let mut k: usize = 0;
    while k < 8
        invariant
            k <= 8,
            pxs@.len() == k,
            forall|j: int| 0 <= j < k ==> pxs@[j] == ring(out@, sh, pt, j),
        decreases 8 - k,
    {
        let px = match neighbour_of(pt, k, sh) {
            Some(q) => out.get(q),
            None => false,
        };
        pxs.push(px);
        k += 1;
    }
    pxs
}

/// Does one thinning sub-pass flag `pt` for removal?
#[verifier::loop_isolation(false)]
fn mark(
    out: &Matrix<bool>,
    c_idx: (usize, usize, usize, usize, usize, usize),
    pt: Pnt,
    sh: Pnt,
) -> (r: bool)
    requires
        out.wf(),
        sh == (out.rows, out.cols),
        in_bounds(pt, out.rows, out.cols),
        c_idx.0 < 8 && c_idx.1 < 8 && c_idx.2 < 8 && c_idx.3 < 8 && c_idx.4 < 8 && c_idx.5 < 8,
    ensures
        r == thin_eligible(out@, sh, pt, c_idx),
{
    let pxs = read_ring(out, pt, sh);
    let mut a: usize = 0;
    let mut b: usize = 0;
    let mut k: usize = 0;
    while k < 8
        invariant
            k <= 8,
            pxs@.len() == 8,
            forall|j: int| 0 <= j < 8 ==> pxs@[j] == ring(out@, sh, pt, j),
            a == transitions_upto(out@, sh, pt, k as int),
            b == ring_count_upto(out@, sh, pt, k as int),
            a <= k,
            b <= k,
        decreases 8 - k,
    {
        let nxt = if k == 7 { 0 } else { k + 1 };
        if !pxs[k] && pxs[nxt] {
            a += 1;
        }
        if pxs[k] {
            b += 1;
        }
        k += 1;
    }
    let c = pxs[c_idx.0] && pxs[c_idx.1] && pxs[c_idx.2];
    let d = pxs[c_idx.3] && pxs[c_idx.4] && pxs[c_idx.5];
    b >= 2 && b <= 6 && a == 1 && !c && !d
}

/// One thinning sub-pass: flags all removal candidates of the current grid,
/// then removes them simultaneously. Returns whether anything was removed.
#[verifier::loop_isolation(false)]
#[verifier::rlimit(100)]
fn thin_subpass(
    out: &mut Matrix<bool>,
    labels: &mut Matrix<bool>,
    order: (usize, usize, usize, usize, usize, usize),
) -> (change: bool)
    requires
        old(out).wf(),
        old(labels).wf(),
        old(labels).rows == old(out).rows,
        old(labels).cols == old(out).cols,
        order.0 < 8 && order.1 < 8 && order.2 < 8 && order.3 < 8 && order.4 < 8 && order.5 < 8,
        forall|p: Pnt| in_bounds(p, old(out).rows, old(out).cols)
            ==> !old(labels)@[flat(p, old(out).cols)],
    ensures
        final(out).wf(),
        final(out).rows == old(out).rows,
        final(out).cols == old(out).cols,
        final(labels).wf(),
        final(labels).rows == old(out).rows,
        final(labels).cols == old(out).cols,
        forall|p: Pnt| in_bounds(p, old(out).rows, old(out).cols)
            ==> !final(labels)@[flat(p, old(out).cols)],
        forall|p: Pnt| in_bounds(p, old(out).rows, old(out).cols)
            ==> final(out)@[flat(p, old(out).cols)] == (old(out)@[flat(p, old(out).cols)]
                && !thin_eligible(old(out)@, (old(out).rows, old(out).cols), p, order)),
        change <==> exists|p: Pnt|
            in_bounds(p, old(out).rows, old(out).cols)
                && old(out)@[flat(p, old(out).cols)] && #[trigger] thin_eligible(
                old(out)@,
                (old(out).rows, old(out).cols),
                p,
                order,
            ),
{
    let rows = out.rows;
    let cols = out.cols;
    let sh: Pnt = (rows, cols);
    let ghost snap = out@;
    let mut change = false;
    let mut r: usize = 0;
    while r < rows
        invariant
            r <= rows,
            out@ == snap,
            out.wf(),
            out.rows == rows,
            out.cols == cols,
            labels.wf(),
            labels.rows == rows,
            labels.cols == cols,
            forall|p: Pnt| in_bounds(p, rows, cols)
                ==> labels@[flat(p, cols)] == (p.0 < r && snap[flat(p, cols)] && thin_eligible(
                    snap,
                    sh,
                    p,
                    order,
                )),
            change <==> exists|p: Pnt|
                in_bounds(p, rows, cols) && p.0 < r && snap[flat(p, cols)]
                    && #[trigger] thin_eligible(snap, sh, p, order),
        decreases rows - r,
    {
        let mut c: usize = 0;
        while c < cols
            invariant
                r < rows,
                c <= cols,
                out@ == snap,
                out.wf(),
                out.rows == rows,
                out.cols == cols,
                labels.wf(),
                labels.rows == rows,
                labels.cols == cols,
                forall|p: Pnt| in_bounds(p, rows, cols)
                    ==> labels@[flat(p, cols)] == ((p.0 < r || (p.0 == r && p.1 < c))
                        && snap[flat(p, cols)] && thin_eligible(snap, sh, p, order)),
                change <==> exists|p: Pnt|
                    in_bounds(p, rows, cols) && (p.0 < r || (p.0 == r && p.1 < c))
                        && snap[flat(p, cols)] && #[trigger] thin_eligible(snap, sh, p, order),
            decreases cols - c,
        {
            let p: Pnt = (r, c);
            proof {
                lemma_flat_in_range(p, rows, cols);
            }
            if out.get(p) {
                let m = mark(out, order, p, sh);
                labels.set(p, m);
                if m {
                    change = true;
                    proof {
                        assert(in_bounds(p, rows, cols) && snap[flat(p, cols)]
                            && thin_eligible(snap, sh, p, order));
                    }
                }
            }
            c += 1;
        }
        r += 1;
    }
    let mut r2: usize = 0;
    while r2 < rows
        invariant
            r2 <= rows,
            out.wf(),
            out.rows == rows,
            out.cols == cols,
            labels.wf(),
            labels.rows == rows,
            labels.cols == cols,
            forall|p: Pnt| in_bounds(p, rows, cols)
                ==> labels@[flat(p, cols)] == (p.0 >= r2 && snap[flat(p, cols)] && thin_eligible(
                    snap,
                    sh,
                    p,
                    order,
                )),
            forall|p: Pnt| in_bounds(p, rows, cols) && p.0 < r2
                ==> out@[flat(p, cols)] == (snap[flat(p, cols)] && !thin_eligible(
                    snap,
                    sh,
                    p,
                    order,
                )),
            forall|p: Pnt| in_bounds(p, rows, cols) && p.0 >= r2
                ==> out@[flat(p, cols)] == snap[flat(p, cols)],
        decreases rows - r2,
    {
        let mut c: usize = 0;
        while c < cols
            invariant
                r2 < rows,
                c <= cols,
                out.wf(),
                out.rows == rows,
                out.cols == cols,
                labels.wf(),
                labels.rows == rows,
                labels.cols == cols,
                forall|p: Pnt| in_bounds(p, rows, cols)
                    ==> labels@[flat(p, cols)] == ((p.0 > r2 || (p.0 == r2 && p.1 >= c))
                        && snap[flat(p, cols)] && thin_eligible(snap, sh, p, order)),
                forall|p: Pnt| in_bounds(p, rows, cols) && (p.0 < r2 || (p.0 == r2 && p.1 < c))
                    ==> out@[flat(p, cols)] == (snap[flat(p, cols)] && !thin_eligible(
                        snap,
                        sh,
                        p,
                        order,
                    )),
                forall|p: Pnt| in_bounds(p, rows, cols) && (p.0 > r2 || (p.0 == r2 && p.1 >= c))
                    ==> out@[flat(p, cols)] == snap[flat(p, cols)],
            decreases cols - c,
        {
            let p: Pnt = (r2, c);
            proof {
                lemma_flat_in_range(p, rows, cols);
            }
            if labels.get(p) {
                out.set(p, false);
                labels.set(p, false);
            }
            c += 1;
        }
        r2 += 1;
    }
    change
}

/// A grid that relates to another pointwise as one sub-pass result is that
/// sub-pass as a map.
proof fn lemma_pass_pointwise(
    v_old: Seq<bool>,
    v_new: Seq<bool>,
    rows: usize,
    cols: usize,
    o: (usize, usize, usize, usize, usize, usize),
)
    requires
        v_old.len() == rows * cols,
        v_new.len() == rows * cols,
        forall|p: Pnt| in_bounds(p, rows, cols)
            ==> v_new[flat(p, cols)] == (v_old[flat(p, cols)] && !thin_eligible(
                v_old,
                (rows, cols),
                p,
                o,
            )),
    ensures
        v_new == thin_pass(v_old, rows, cols, o),
{
    assert forall|t: int| 0 <= t < v_new.len() implies
        v_new[t] == thin_pass(v_old, rows, cols, o)[t] by {
        crate::types::lemma_div_mod_point(t, rows, cols);
        let p = crate::types::pt_of(t, cols);
        assert(v_new[flat(p, cols)] == (v_old[flat(p, cols)] && !thin_eligible(
            v_old,
            (rows, cols),
            p,
            o,
        )));
    }
    assert(v_new =~= thin_pass(v_old, rows, cols, o));
}

/// A sub-pass with no removal candidate is the identity.
proof fn lemma_pass_identity(
    v: Seq<bool>,
    rows: usize,
    cols: usize,
    o: (usize, usize, usize, usize, usize, usize),
)
    requires
        v.len() == rows * cols,
        forall|p: Pnt| in_bounds(p, rows, cols)
            ==> !(v[flat(p, cols)] && thin_eligible(v, (rows, cols), p, o)),
    ensures
        thin_pass(v, rows, cols, o) == v,
{
    assert forall|t: int| 0 <= t < v.len() implies
        thin_pass(v, rows, cols, o)[t] == v[t] by {
        crate::types::lemma_div_mod_point(t, rows, cols);
        let p = crate::types::pt_of(t, cols);
        assert(!(v[flat(p, cols)] && thin_eligible(v, (rows, cols), p, o)));
    }
    assert(thin_pass(v, rows, cols, o) =~= v);
}

/// Iteratively erodes a mask to its topological skeleton: up to a fixed
/// iteration cap, two structurally identical sub-passes with different
/// connectivity-preserving neighbour triples remove eligible pixels
/// simultaneously; iteration stops early once a full pass removes nothing.
///
/// The contract pins the result exactly: it is `thin_rounds` of the input,
/// the cap's worth of simultaneous-removal double passes (early exit
/// changes nothing, since a pass that removes nothing is the identity and
/// stays so). The subset clause and the fixed-point law (an already-minimal
/// mask comes back unchanged) follow and are stated for direct use.
#[verifier::loop_isolation(false)]
#[verifier::rlimit(100)]
pub fn skel(img: &Matrix<bool>) -> (out: Matrix<bool>)
    requires
        img.wf(),
    ensures
        out.wf(),
        out.rows == img.rows,
        out.cols == img.cols,
        out@ == thin_rounds(img@, img.rows, img.cols, 100),
        forall|p: Pnt| in_bounds(p, img.rows, img.cols) && out@[flat(p, img.cols)]
            ==> img@[flat(p, img.cols)],
        (forall|p: Pnt|
            in_bounds(p, img.rows, img.cols) && img@[flat(p, img.cols)]
                ==> !thin_eligible(img@, (img.rows, img.cols), p, (0, 2, 4, 2, 4, 6))
                    && !thin_eligible(img@, (img.rows, img.cols), p, (0, 2, 6, 0, 4, 6)))
            ==> out@ == img@,
{
    let rows = img.rows;
    let cols = img.cols;
    let ghost sh: Pnt = (rows, cols);
    let mut out = img.duplicate();
    let mut labels = Matrix::<bool>::filled(rows, cols, false);
    let mut i: usize = 0;
    let mut go = true;
    while go && i < 100
        invariant
            i <= 100,
            out.wf(),
            out.rows == rows,
            out.cols == cols,
            labels.wf(),
            labels.rows == rows,
            labels.cols == cols,
            forall|p: Pnt| in_bounds(p, rows, cols) ==> !labels@[flat(p, cols)],
            forall|p: Pnt| in_bounds(p, rows, cols) && out@[flat(p, cols)]
                ==> img@[flat(p, cols)],
            out@ == thin_rounds(img@, rows, cols, i as nat),
            !go ==> thin_round(out@, rows, cols) == out@,
        decreases 100 - i,
    {
        let ghost before = out@;
        let change_a = thin_subpass(&mut out, &mut labels, (0, 2, 4, 2, 4, 6));
        proof {
            lemma_pass_pointwise(
                before,
                out@,
                rows,
                cols,
                (0usize, 2usize, 4usize, 2usize, 4usize, 6usize),
            );
        }
        let ghost mid = out@;
        let change_b = thin_subpass(&mut out, &mut labels, (0, 2, 6, 0, 4, 6));
        proof {
            lemma_pass_pointwise(
                mid,
                out@,
                rows,
                cols,
                (0usize, 2usize, 6usize, 0usize, 4usize, 6usize),
            );
            assert(out@ == thin_round(before, rows, cols));
        }
        if !(change_a || change_b) {
            go = false;
            proof {
                lemma_pass_identity(
                    before,
                    rows,
                    cols,
                    (0usize, 2usize, 4usize, 2usize, 4usize, 6usize),
                );
                assert(mid == before);
                lemma_pass_identity(
                    mid,
                    rows,
                    cols,
                    (0usize, 2usize, 6usize, 0usize, 4usize, 6usize),
                );
                assert(out@ == before);
                assert(thin_round(out@, rows, cols) == out@);
            }
        }
        i += 1;
    }
    proof {
        if i < 100 {
            lemma_thin_rounds_add(img@, rows, cols, i as nat, (100 - i) as nat);
            lemma_thin_fixed(out@, rows, cols, (100 - i) as nat);
        }
        let fp = forall|p: Pnt|
            in_bounds(p, rows, cols) && img@[flat(p, cols)]
                ==> !thin_eligible(img@, sh, p, (0usize, 2usize, 4usize, 2usize, 4usize, 6usize))
                    && !thin_eligible(
                    img@,
                    sh,
                    p,
                    (0usize, 2usize, 6usize, 0usize, 4usize, 6usize),
                );
        if fp {
            lemma_pass_identity(
                img@,
                rows,
                cols,
                (0usize, 2usize, 4usize, 2usize, 4usize, 6usize),
            );
            lemma_pass_identity(
                img@,
                rows,
                cols,
                (0usize, 2usize, 6usize, 0usize, 4usize, 6usize),
            );
            assert(thin_round(img@, rows, cols) == img@);
            lemma_thin_fixed(img@, rows, cols, 100);
        }
    }
    out
}

/// Flags the skeleton junction pixels: foreground cells with at least three
/// background-to-foreground transitions around their neighbour ring.
#[verifier::loop_isolation(false)]
#[verifier::rlimit(100)]
pub fn count_branches(img: &Matrix<bool>) -> (out: Matrix<bool>)
    requires
        img.wf(),
    ensures
        out.wf(),
        out.rows == img.rows,
        out.cols == img.cols,
        forall|p: Pnt| in_bounds(p, img.rows, img.cols)
            ==> out@[flat(p, img.cols)] == (img@[flat(p, img.cols)] && transitions(
                img@,
                (img.rows, img.cols),
                p,
            ) >= 3),
{
    let rows = img.rows;
    let cols = img.cols;
    let sh: Pnt = (rows, cols);
    let mut out = Matrix::<bool>::filled(rows, cols, false);
    let mut r: usize = 0;
    while r < rows
        invariant
            r <= rows,
            out.wf(),
            out.rows == rows,
            out.cols == cols,
            forall|p: Pnt| in_bounds(p, rows, cols)
                ==> out@[flat(p, cols)] == (p.0 < r && img@[flat(p, cols)] && transitions(
                    img@,
                    sh,
                    p,
                ) >= 3),
        decreases rows - r,
    {
        let mut c: usize = 0;
        while c < cols
            invariant
                r < rows,
                c <= cols,
                out.wf(),
                out.rows == rows,
                out.cols == cols,
                forall|p: Pnt| in_bounds(p, rows, cols)
                    ==> out@[flat(p, cols)] == ((p.0 < r || (p.0 == r && p.1 < c))
                        && img@[flat(p, cols)] && transitions(img@, sh, p) >= 3),
            decreases cols - c,
        {
            let p: Pnt = (r, c);
            proof {
                lemma_flat_in_range(p, rows, cols);
            }
            if img.get(p) {
                let j = mark_branch(img, p, sh);
                out.set(p, j);
            }
            c += 1;
        }
        r += 1;
    }
    out
}

/// Does the skeleton branch at `pt`?
#[verifier::loop_isolation(false)]
fn mark_branch(out: &Matrix<bool>, pt: Pnt, sh: Pnt) -> (r: bool)
    requires
        out.wf(),
        sh == (out.rows, out.cols),
        in_bounds(pt, out.rows, out.cols),
    ensures
        r == (transitions(out@, sh, pt) >= 3),
{
    let pxs = read_ring(out, pt, sh);
    let mut a: usize = 0;
    let mut k: usize = 0;
    while k < 8
        invariant
            k <= 8,
            pxs@.len() == 8,
            forall|j: int| 0 <= j < 8 ==> pxs@[j] == ring(out@, sh, pt, j),
            a == transitions_upto(out@, sh, pt, k as int),
            a <= k,
        decreases 8 - k,
    {
        let nxt = if k == 7 { 0 } else { k + 1 };
        if !pxs[k] && pxs[nxt] {
            a += 1;
        }
        k += 1;
    }
    a >= 3
}

/// Geodesic-pass coverage law: starting at cell `i`'s seed, a walk through
/// label-`i + 1` pixels that meets no other cell's seed stays inside cell
/// `i`'s claims — so, with `bfs_closed`, the pass discovers every own-label
/// pixel reachable from the seed except where another seed stands in the
/// way.
pub proof fn lemma_bfs_covers(
    v: Seq<u32>,
    rows: usize,
    cols: usize,
    cl: Seq<Seq<Pnt>>,
    i: int,
    path: Seq<Pnt>,
)
    requires
        v.len() == rows * cols,
        bfs_closed(v, rows, cols, cl),
        forall|j: int, k: int|
            0 <= j < cl.len() && 1 <= k < cl[j].len()
                ==> (v[flat(#[trigger] cl[j][k], cols)] as int) == j + 1,
        0 <= i < cl.len(),
        cl[i].len() >= 1,
        in_bounds(cl[i][0], rows, cols),
        is_path(with_seed(label_mask(v, i + 1), cols, cl[i][0]), rows, cols, path),
        path.first() == cl[i][0],
        forall|t: int, j: int|
            #![trigger path[t], cl[j]]
            1 <= t < path.len() && 0 <= j < cl.len() && j != i && cl[j].len() >= 1
                ==> path[t] != cl[j][0],
    ensures
        cl[i].contains(path.last()),
{
    assert(cl[i].contains(cl[i][0]));
    lemma_bfs_covers_shifted(v, rows, cols, cl, i, path, cl[i][0]);
}

/// Helper for the coverage law: a walk whose head is any cell-`i` claim
/// (not necessarily the seed) stays inside the claims, meeting no foreign
/// seed.
proof fn lemma_bfs_covers_shifted(
    v: Seq<u32>,
    rows: usize,
    cols: usize,
    cl: Seq<Seq<Pnt>>,
    i: int,
    path: Seq<Pnt>,
    head: Pnt,
)
    requires
        v.len() == rows * cols,
        bfs_closed(v, rows, cols, cl),
        forall|j: int, k: int|
            0 <= j < cl.len() && 1 <= k < cl[j].len()
                ==> (v[flat(#[trigger] cl[j][k], cols)] as int) == j + 1,
        0 <= i < cl.len(),
        cl[i].len() >= 1,
        in_bounds(cl[i][0], rows, cols),
        is_path(with_seed(label_mask(v, i + 1), cols, cl[i][0]), rows, cols, path),
        path.first() == head,
        cl[i].contains(head),
        forall|t: int, j: int|
            #![trigger path[t], cl[j]]
            1 <= t < path.len() && 0 <= j < cl.len() && j != i && cl[j].len() >= 1
                ==> path[t] != cl[j][0],
    ensures
        cl[i].contains(path.last()),
    decreases path.len(),
{
    let m = cl[i][0];
    if path.len() == 1 {
        assert(path.last() == head);
    } else {
        let sv = with_seed(label_mask(v, i + 1), cols, m);
        let q = path[1];
        assert(adj(path[0], q));
        assert(in_bounds(q, rows, cols));
        crate::types::lemma_flat_in_range(m, rows, cols);
        if q != m {
            assert(flat(q, cols) != flat(m, cols));
            assert(label_mask(v, i + 1)[flat(q, cols)]);
            assert((v[flat(q, cols)] as int) == i + 1);
            let k0 = choose|k0: int| 0 <= k0 < cl[i].len() && cl[i][k0] == head;
            assert(adj(cl[i][k0], q));
            assert(some_claim_contains(cl, q));
            let jq = choose|jq: int| 0 <= jq < cl.len() && (#[trigger] cl[jq]).contains(q);
            let kq = choose|kq: int| 0 <= kq < cl[jq].len() && cl[jq][kq] == q;
            if kq >= 1 {
                assert((v[flat(cl[jq][kq], cols)] as int) == jq + 1);
                assert(jq == i);
            } else {
                assert(q == cl[jq][0]);
                if jq != i {
                    assert(path[1] != cl[jq][0]);
                    assert(false);
                }
            }
        }
        assert(cl[i].contains(q));
        let rest = path.drop_first();
        assert forall|t: int| 0 <= t < rest.len() implies
            in_bounds(#[trigger] rest[t], rows, cols) && sv[flat(rest[t], cols)] by {
            assert(rest[t] == path[t + 1]);
        }
        assert forall|t: int| 0 <= t < rest.len() - 1 implies adj(#[trigger] rest[t], rest[t + 1]) by {
            assert(rest[t] == path[t + 1] && rest[t + 1] == path[t + 2]);
            assert(adj(path[t + 1], path[t + 2]));
        }
        assert(is_path(sv, rows, cols, rest));
        assert(rest[0] == q);
        lemma_bfs_covers_shifted(v, rows, cols, cl, i, rest, q);
        assert(rest.last() == path.last());
    }
}

/// Sum of the bucket counts of one histogram.
pub open spec fn sum_hist(h: Seq<usize>) -> int
    decreases h.len(),
{
    if h.len() == 0 {
        0
    } else {
        sum_hist(h.drop_last()) + h.last()
    }
}

/// Raising one bucket raises the sum by the same amount.
proof fn lemma_sum_hist_update(h: Seq<usize>, d: int, v: usize)
    requires
        0 <= d < h.len(),
    ensures
        sum_hist(h.update(d, v)) == sum_hist(h) - h[d] + v,
    decreases h.len(),
{
    let u = h.update(d, v);
    if d == h.len() - 1 {
        assert(u.drop_last() =~= h.drop_last());
        assert(u.last() == v);
    } else {
        lemma_sum_hist_update(h.drop_last(), d, v);
        assert(u.drop_last() =~= h.drop_last().update(d, v));
        assert(u.last() == h.last());
    }
}

/// No bucket exceeds the histogram's sum.
proof fn lemma_bucket_le_sum(h: Seq<usize>, d: int)
    requires
        0 <= d < h.len(),
    ensures
        h[d] <= sum_hist(h),
        sum_hist(h) >= 0,
    decreases h.len(),
{
    if d == h.len() - 1 {
        lemma_sum_hist_nonneg(h.drop_last());
    } else {
        lemma_bucket_le_sum(h.drop_last(), d);
    }
}

/// Histogram sums are never negative.
pub proof fn lemma_sum_hist_nonneg(h: Seq<usize>)
    ensures
        sum_hist(h) >= 0,
    decreases h.len(),
{
    if h.len() > 0 {
        lemma_sum_hist_nonneg(h.drop_last());
    }
}

/// Total number of pixels claimed across all cells.
pub open spec fn sum_claimed(cl: Seq<Seq<Pnt>>) -> nat
    decreases cl.len(),
{
    if cl.len() == 0 {
        0
    } else {
        sum_claimed(cl.drop_last()) + cl.last().len()
    }
}

/// Extending one cell's claims extends the total alike.
proof fn lemma_sum_claimed_update(cl: Seq<Seq<Pnt>>, i: int, c: Seq<Pnt>)
    requires
        0 <= i < cl.len(),
    ensures
        sum_claimed(cl.update(i, c)) == sum_claimed(cl) - cl[i].len() + c.len(),
    decreases cl.len(),
{
    let u = cl.update(i, c);
    if i == cl.len() - 1 {
        assert(u.drop_last() =~= cl.drop_last());
        assert(u.last() == c);
    } else {
        lemma_sum_claimed_update(cl.drop_last(), i, c);
        assert(u.drop_last() =~= cl.drop_last().update(i, c));
        assert(u.last() == cl.last());
    }
}

/// No cell claims more than the total.
proof fn lemma_claim_le_sum(cl: Seq<Seq<Pnt>>, i: int)
    requires
        0 <= i < cl.len(),
    ensures
        cl[i].len() <= sum_claimed(cl),
    decreases cl.len(),
{
    if i < cl.len() - 1 {
        lemma_claim_le_sum(cl.drop_last(), i);
    }
}

/// Number of claims of one cell whose stored distance is `d`.
pub open spec fn dist_count(cl_i: Seq<Pnt>, dist: Seq<usize>, cols: usize, d: int) -> nat
    decreases cl_i.len(),
{
    if cl_i.len() == 0 {
        0
    } else {
        dist_count(cl_i.drop_last(), dist, cols, d) + if dist[flat(cl_i.last(), cols)] == d {
            1nat
        } else {
            0nat
        }
    }
}

/// Rewriting the distance grid away from every claim leaves the counts.
proof fn lemma_dist_count_update(
    cl_i: Seq<Pnt>,
    dist: Seq<usize>,
    cols: usize,
    qf: int,
    dv: usize,
    d: int,
)
    requires
        0 <= qf < dist.len(),
        forall|k: int| 0 <= k < cl_i.len()
            ==> flat(#[trigger] cl_i[k], cols) != qf && 0 <= flat(cl_i[k], cols) < dist.len(),
    ensures
        dist_count(cl_i, dist.update(qf, dv), cols, d) == dist_count(cl_i, dist, cols, d),
    decreases cl_i.len(),
{
    if cl_i.len() > 0 {
        lemma_dist_count_update(cl_i.drop_last(), dist, cols, qf, dv, d);
        assert(cl_i[cl_i.len() - 1] == cl_i.last());
    }
}

/// Some cell has claimed `p`.
pub open spec fn some_claim_contains(cl: Seq<Seq<Pnt>>, p: Pnt) -> bool {
    exists|i: int| 0 <= i < cl.len() && (#[trigger] cl[i]).contains(p)
}

/// The cells of the label grid holding value `lbl`, as a mask.
pub open spec fn label_mask(v: Seq<u32>, lbl: int) -> Seq<bool> {
    Seq::new(v.len(), |t: int| v[t] == lbl)
}

/// Is `p` the seed of a cell other than `i`? Such a cell blocks cell `i`'s
/// frontier even where the label matches.
#[verifier::opaque]
pub open spec fn foreign_seed(markers: Seq<Option<Pnt>>, i: int, p: Pnt) -> bool {
    exists|j: int| 0 <= j < markers.len() && j != i && markers[j] == Some(p)
}

/// The ground cell `i`'s frontier can spread over: own-label pixels that
/// are not another cell's seed.
pub open spec fn cell_mask(v: Seq<u32>, markers: Seq<Option<Pnt>>, i: int, cols: usize) -> Seq<
    bool,
> {
    Seq::new(v.len(), |t: int| v[t] == i + 1 && !foreign_seed(markers, i, pt_of(t, cols)))
}

/// Every in-bounds neighbour of `p` carrying label `lbl` is already
/// visited: cell `lbl - 1`'s frontier around `p` has nowhere left to
/// spread.
pub open spec fn bfs_settled(
    v: Seq<u32>,
    lbl: int,
    rows: usize,
    cols: usize,
    vis: Seq<bool>,
    p: Pnt,
) -> bool {
    forall|q: Pnt| #[trigger] adj(p, q) && in_bounds(q, rows, cols) && (v[flat(q, cols)] as int)
        == lbl ==> vis[flat(q, cols)]
}

/// The claims are closed under own-label adjacency: an in-bounds neighbour
/// of a cell-`i` claim that carries label `i + 1` is claimed by some cell.
pub open spec fn bfs_closed(v: Seq<u32>, rows: usize, cols: usize, cl: Seq<Seq<Pnt>>) -> bool {
    forall|i: int, k: int, q: Pnt|
        0 <= i < cl.len() && 0 <= k < cl[i].len() && #[trigger] adj(cl[i][k], q)
            && in_bounds(q, rows, cols) && (v[flat(q, cols)] as int) == i + 1
            ==> some_claim_contains(cl, q)
}

/// The running state of the multi-source geodesic pass over the labeled
/// skeleton `v`: per seeded cell, the histogram opens with the seed's own
/// bucket, holds at least one pixel per bucket, and its sum equals the
/// number of pixels the cell has claimed; unseeded cells claim nothing;
/// claims are disjoint, duplicate-free, in bounds, carry the cell's own
/// label past the seed, and as a whole make up exactly the visited pixels;
/// distances never exceed the number of visited pixels.
pub open spec fn bfs_inv(
    v: Seq<u32>,
    rows: usize,
    cols: usize,
    markers: Seq<Option<Pnt>>,
    vis: Seq<bool>,
    dist: Seq<usize>,
    hists: Seq<Vec<usize>>,
    cl: Seq<Seq<Pnt>>,
) -> bool {
    &&& hists.len() == markers.len()
    &&& cl.len() == markers.len()
    &&& forall|i: int| 0 <= i < markers.len() && markers[i] is Some
        ==> (#[trigger] hists[i])@.len() >= 1 && hists[i]@[0] == 1
    &&& forall|i: int| 0 <= i < markers.len() && markers[i] is Some
        ==> (#[trigger] cl[i]).len() >= 1 && cl[i][0] == markers[i]->0
            && dist[flat(markers[i]->0, cols)] == 0
    &&& forall|i: int| 0 <= i < markers.len() && markers[i] is None
        ==> (#[trigger] hists[i])@.len() == 0 && cl[i].len() == 0
    &&& forall|i: int| 0 <= i < markers.len()
        ==> sum_hist((#[trigger] hists[i])@) == cl[i].len()
    &&& forall|i: int, d: int|
        0 <= i < hists.len() && 0 <= d < hists[i]@.len() ==> (#[trigger] hists[i]@[d])
            == dist_count(cl[i], dist, cols, d)
    &&& forall|i: int, d: int|
        0 <= i < hists.len() && d >= hists[i]@.len()
            ==> #[trigger] dist_count(cl[i], dist, cols, d) == 0
    &&& forall|i: int| 0 <= i < hists.len() ==> (#[trigger] hists[i])@.len() <= rows * cols + 1
    &&& forall|i: int| 0 <= i < cl.len() ==> (#[trigger] cl[i]).no_duplicates()
    &&& forall|i: int, j: int|
        0 <= i < cl.len() && 0 <= j < cl.len() && i != j
            ==> forall|p: Pnt| (#[trigger] cl[i]).contains(p) ==> !(#[trigger] cl[j]).contains(p)
    &&& forall|i: int, k: int|
        0 <= i < cl.len() && 0 <= k < cl[i].len() ==> in_bounds(#[trigger] cl[i][k], rows, cols)
    &&& forall|i: int, k: int|
        0 <= i < cl.len() && 1 <= k < cl[i].len() ==> (v[flat(#[trigger] cl[i][k], cols)] as int)
            == i + 1
    &&& forall|i: int, k: int|
        0 <= i < cl.len() && 0 <= k < cl[i].len() && markers[i] is Some
            ==> connected_within(
                with_seed(cell_mask(v, markers, i, cols), cols, markers[i]->0),
                rows,
                cols,
                markers[i]->0,
                #[trigger] cl[i][k],
                dist[flat(cl[i][k], cols)] as int,
            )
    &&& forall|p: Pnt| in_bounds(p, rows, cols)
        ==> (vis[flat(p, cols)] <==> some_claim_contains(cl, p))
    &&& sum_claimed(cl) == rows * cols - count_false(vis)
    &&& forall|p: Pnt| in_bounds(p, rows, cols)
        ==> dist[flat(p, cols)] <= rows * cols - count_false(vis)
}

/// After one claim — distance grid extended at the new pixel, its cell's
/// histogram bumped at that distance — the histograms again count claims
/// by stored distance, bucket for bucket.
proof fn lemma_bump_exact(
    cl: Seq<Seq<Pnt>>,
    newcl: Seq<Seq<Pnt>>,
    old_hists: Seq<Vec<usize>>,
    hists: Seq<Vec<usize>>,
    old_dist: Seq<usize>,
    dist: Seq<usize>,
    cols: usize,
    j: int,
    q: Pnt,
    d: usize,
)
    requires
        0 <= j < cl.len(),
        newcl == cl.update(j, cl[j].push(q)),
        hists.len() == cl.len(),
        old_hists.len() == cl.len(),
        dist == old_dist.update(flat(q, cols), d),
        0 <= flat(q, cols) < old_dist.len(),
        forall|i2: int, k: int|
            0 <= i2 < cl.len() && 0 <= k < cl[i2].len()
                ==> flat(#[trigger] cl[i2][k], cols) != flat(q, cols)
                    && 0 <= flat(cl[i2][k], cols) < old_dist.len(),
        forall|i2: int, d2: int|
            0 <= i2 < cl.len() && 0 <= d2 < old_hists[i2]@.len()
                ==> (#[trigger] old_hists[i2]@[d2]) == dist_count(cl[i2], old_dist, cols, d2),
        forall|i2: int, d2: int|
            0 <= i2 < cl.len() && d2 >= old_hists[i2]@.len()
                ==> #[trigger] dist_count(cl[i2], old_dist, cols, d2) == 0,
        forall|jj: int| 0 <= jj < cl.len() && jj != j ==> hists[jj] == old_hists[jj],
        hists[j]@.len() == (if old_hists[j]@.len() > d {
            old_hists[j]@.len() as int
        } else {
            d + 1
        }),
        forall|d2: int|
            0 <= d2 < hists[j]@.len()
                ==> (#[trigger] hists[j]@[d2]) == (if d2 == d {
                    if d2 < old_hists[j]@.len() {
                        (old_hists[j]@[d2] + 1) as int
                    } else {
                        1int
                    }
                } else if d2 < old_hists[j]@.len() {
                    old_hists[j]@[d2] as int
                } else {
                    0int
                }),
    ensures
        forall|i2: int, d2: int|
            0 <= i2 < hists.len() && 0 <= d2 < hists[i2]@.len()
                ==> (#[trigger] hists[i2]@[d2]) == dist_count(newcl[i2], dist, cols, d2),
        forall|i2: int, d2: int|
            0 <= i2 < hists.len() && d2 >= hists[i2]@.len()
                ==> #[trigger] dist_count(newcl[i2], dist, cols, d2) == 0,
{
    assert(dist[flat(q, cols)] == d);
    assert forall|i2: int, d2: int| 0 <= i2 < cl.len() implies
        #[trigger] dist_count(cl[i2], dist, cols, d2) == dist_count(cl[i2], old_dist, cols, d2) by {
        lemma_dist_count_update(cl[i2], old_dist, cols, flat(q, cols), d, d2);
    }
    assert(newcl[j].drop_last() =~= cl[j]);
    assert(newcl[j].last() == q);
    assert forall|i2: int, d2: int|
        0 <= i2 < hists.len() && 0 <= d2 < hists[i2]@.len() implies
        (#[trigger] hists[i2]@[d2]) == dist_count(newcl[i2], dist, cols, d2) by {
        if i2 == j {
            assert(dist_count(newcl[i2], dist, cols, d2) == dist_count(cl[i2], dist, cols, d2)
                + if dist[flat(q, cols)] == d2 {
                1nat
            } else {
                0nat
            });
            if d2 == d as int {
                if (d as int) < old_hists[j]@.len() {
                    assert(hists[i2]@[d2] == old_hists[j]@[d2] + 1);
                } else {
                    assert(hists[i2]@[d2] == 1);
                    assert(dist_count(cl[i2], old_dist, cols, d2) == 0);
                }
            } else {
                if d2 < old_hists[j]@.len() {
                    assert(hists[i2]@[d2] == old_hists[j]@[d2]);
                } else {
                    assert(hists[i2]@[d2] == 0);
                    assert(dist_count(cl[i2], old_dist, cols, d2) == 0);
                }
            }
        } else {
            assert(hists[i2] == old_hists[i2]);
            assert(newcl[i2] == cl[i2]);
        }
    }
    assert forall|i2: int, d2: int|
        0 <= i2 < hists.len() && d2 >= hists[i2]@.len() implies
        #[trigger] dist_count(newcl[i2], dist, cols, d2) == 0 by {
        if i2 == j {
            assert(d2 > d);
            assert(d2 >= old_hists[j]@.len());
            assert(dist_count(cl[i2], old_dist, cols, d2) == 0);
            assert(dist_count(newcl[i2], dist, cols, d2) == dist_count(cl[i2], dist, cols, d2)
                + if dist[flat(q, cols)] == d2 {
                1nat
            } else {
                0nat
            });
        } else {
            assert(hists[i2] == old_hists[i2]);
            assert(newcl[i2] == cl[i2]);
            assert(dist_count(cl[i2], old_dist, cols, d2) == 0);
        }
    }
}

/// Counts one more pixel at distance `d` in cell `j`'s histogram,
/// extending it with empty buckets up to `d` when needed.
#[verifier::loop_isolation(false)]
fn bump_bucket(hists: &mut Vec<Vec<usize>>, j: usize, d: usize)
    requires
        j < old(hists)@.len(),
        sum_hist(old(hists)@[j as int]@) < usize::MAX,
    ensures
        final(hists)@.len() == old(hists)@.len(),
        forall|jj: int| 0 <= jj < old(hists)@.len() && jj != j
            ==> final(hists)@[jj] == old(hists)@[jj],
        final(hists)@[j as int]@.len() == (if old(hists)@[j as int]@.len() > d {
            old(hists)@[j as int]@.len() as int
        } else {
            d + 1
        }),
        sum_hist(final(hists)@[j as int]@) == sum_hist(old(hists)@[j as int]@) + 1,
        forall|d2: int|
            0 <= d2 < final(hists)@[j as int]@.len()
                ==> (#[trigger] final(hists)@[j as int]@[d2]) == (if d2 == d {
                    if d2 < old(hists)@[j as int]@.len() {
                        (old(hists)@[j as int]@[d2] + 1) as int
                    } else {
                        1int
                    }
                } else if d2 < old(hists)@[j as int]@.len() {
                    old(hists)@[j as int]@[d2] as int
                } else {
                    0int
                }),
{
    let hist: &mut Vec<usize> = &mut hists[j];
    let ghost oldh = hist@;
    while hist.len() <= d
        invariant
            oldh.len() <= hist@.len(),
            hist@.len() <= d + 1 || hist@.len() == oldh.len(),
            hist@.take(oldh.len() as int) == oldh,
            forall|d2: int| oldh.len() <= d2 < hist@.len() ==> hist@[d2] == 0,
            sum_hist(hist@) == sum_hist(oldh),
        decreases d + 1 - hist@.len(),
    {
        let ghost before_pad = hist@;
        hist.push(0);
        proof {
            assert(hist@.drop_last() =~= before_pad);
            assert(hist@.take(oldh.len() as int) =~= before_pad.take(oldh.len() as int));
        }
    }
    let ghost padded = hist@;
    proof {
        lemma_bucket_le_sum(padded, d as int);
        if (d as int) < oldh.len() {
            assert(padded[d as int] == oldh[d as int]);
        }
    }
    let slot: &mut usize = &mut hist[d];
    *slot = *slot + 1;
    proof {
        lemma_sum_hist_update(padded, d as int, (padded[d as int] + 1) as usize);
        assert forall|d2: int| 0 <= d2 < hist@.len() && d2 != d implies
            hist@[d2] == padded[d2] by {}
        assert forall|d2: int| 0 <= d2 < oldh.len() implies
            #[trigger] padded[d2] == oldh[d2] by {
            assert(padded.take(oldh.len() as int)[d2] == padded[d2]);
        }
    }
}

/// Claims the unvisited pixel `q`, which carries cell `j`'s label and is
/// adjacent to the already-claimed `pt`: records its geodesic distance as
/// one hop past `pt`'s and counts it in the cell's histogram.
#[verifier::loop_isolation(false)]
#[verifier::rlimit(100)]
fn bfs_claim(
    img: &Matrix<u32>,
    markers: &Vec<Option<Pnt>>,
    visited: &mut Matrix<bool>,
    dist: &mut Matrix<usize>,
    hists: &mut Vec<Vec<usize>>,
    Ghost(cl): Ghost<Seq<Seq<Pnt>>>,
    j: usize,
    pt: Pnt,
    q: Pnt,
) -> (newcl: Ghost<Seq<Seq<Pnt>>>)
    requires
        img.wf(),
        old(visited).wf(),
        old(visited).rows == img.rows,
        old(visited).cols == img.cols,
        old(dist).wf(),
        old(dist).rows == img.rows,
        old(dist).cols == img.cols,
        bfs_inv(img@, img.rows, img.cols, markers@, old(visited)@, old(dist)@, old(hists)@, cl),
        j < markers@.len(),
        cl[j as int].contains(pt),
        adj(pt, q),
        in_bounds(q, img.rows, img.cols),
        (img@[flat(q, img.cols)] as int) == j + 1,
        !old(visited)@[flat(q, img.cols)],
    ensures
        final(visited).wf(),
        final(visited).rows == img.rows,
        final(visited).cols == img.cols,
        final(dist).wf(),
        final(dist).rows == img.rows,
        final(dist).cols == img.cols,
        bfs_inv(
            img@,
            img.rows,
            img.cols,
            markers@,
            final(visited)@,
            final(dist)@,
            final(hists)@,
            newcl@,
        ),
        newcl@ == cl.update(j as int, cl[j as int].push(q)),
        count_false(final(visited)@) == count_false(old(visited)@) - 1,
        final(visited)@[flat(q, img.cols)],
        final(dist)@ == old(dist)@.update(
            flat(q, img.cols),
            (old(dist)@[flat(pt, img.cols)] + 1) as usize,
        ),
        final(dist)@[flat(q, img.cols)] == old(dist)@[flat(pt, img.cols)] + 1,
        forall|lbl: int, p: Pnt|
            bfs_settled(img@, lbl, img.rows, img.cols, old(visited)@, p)
                ==> bfs_settled(img@, lbl, img.rows, img.cols, final(visited)@, p),
        forall|t: int| 0 <= t < old(visited)@.len() && old(visited)@[t]
            ==> final(visited)@[t],
{
    let rows = img.rows;
    let cols = img.cols;
    proof {
        lemma_flat_in_range(q, rows, cols);
        lemma_count_false_update(visited@, flat(q, cols));
        let kpt = choose|k: int| 0 <= k < cl[j as int].len() && cl[j as int][k] == pt;
        assert(in_bounds(cl[j as int][kpt], rows, cols));
        lemma_flat_in_range(pt, rows, cols);
        assert forall|jj: int| 0 <= jj < cl.len() implies !(#[trigger] cl[jj]).contains(q) by {
            if cl[jj].contains(q) {
                assert(some_claim_contains(cl, q));
                assert(false);
            }
        }
    }
    let d0 = dist.get(pt);
    let d = d0 + 1;
    visited.set(q, true);
    proof {
        assert forall|lbl: int, p: Pnt|
            bfs_settled(img@, lbl, rows, cols, old(visited)@, p) implies bfs_settled(
            img@,
            lbl,
            rows,
            cols,
            visited@,
            p,
        ) by {
            assert forall|q2: Pnt| #[trigger] adj(p, q2) && in_bounds(q2, rows, cols)
                && (img@[flat(q2, cols)] as int) == lbl implies visited@[flat(q2, cols)] by {
                assert(old(visited)@[flat(q2, cols)]);
            }
        }
    }
    dist.set(q, d);
    let ghost old_hists = hists@;
    let ghost oldh = hists@[j as int]@;
    proof {
        lemma_claim_le_sum(cl, j as int);
        crate::types::lemma_count_false_le_len(old(visited)@);
        crate::binary::lemma_sum_hist_nonneg(oldh);
    }
    bump_bucket(hists, j, d);
    let ghost newcl = cl.update(j as int, cl[j as int].push(q));
    proof {
        lemma_sum_claimed_update(cl, j as int, cl[j as int].push(q));
        assert(d >= 1);
        assert(sum_hist(hists@[j as int]@) == sum_hist(oldh) + 1);
        assert forall|p: Pnt| in_bounds(p, rows, cols) implies
            (visited@[flat(p, cols)] <==> some_claim_contains(newcl, p)) by {
            if p == q {
                assert(newcl[j as int].contains(q));
            } else {
                if some_claim_contains(cl, p) {
                    let i = choose|i: int| 0 <= i < cl.len() && (#[trigger] cl[i]).contains(p);
                    assert(newcl[i].contains(p));
                }
                if some_claim_contains(newcl, p) {
                    let i = choose|i: int|
                        0 <= i < newcl.len() && (#[trigger] newcl[i]).contains(p);
                    assert(cl[i].contains(p));
                }
            }
        }
        assert forall|i: int, jj: int|
            0 <= i < newcl.len() && 0 <= jj < newcl.len() && i != jj implies
            forall|p: Pnt| (#[trigger] newcl[i]).contains(p)
                ==> !(#[trigger] newcl[jj]).contains(p) by {
            assert forall|p: Pnt| (#[trigger] newcl[i]).contains(p) implies
                !(#[trigger] newcl[jj]).contains(p) by {
                if p == q {
                    if i != j as int {
                        assert(cl[i].contains(q));
                        assert(some_claim_contains(cl, q));
                        assert(false);
                    }
                    if newcl[jj].contains(q) {
                        assert(cl[jj].contains(q));
                        assert(some_claim_contains(cl, q));
                        assert(false);
                    }
                } else {
                    assert(cl[i].contains(p));
                    assert(!cl[jj].contains(p));
                    if newcl[jj].contains(p) {
                        assert(cl[jj].contains(p));
                        assert(false);
                    }
                }
            }
        }
        assert forall|i: int|
            0 <= i < markers@.len() && #[trigger] markers@[i] is Some implies
            dist@[flat(markers@[i]->0, cols)] == 0 by {
            let m = markers@[i]->0;
            assert(cl[i][0] == m);
            assert(cl[i].contains(m));
            assert(some_claim_contains(cl, m));
            assert(old(visited)@[flat(m, cols)]);
            assert(m != q);
        }
        assert forall|i2: int, k: int|
            0 <= i2 < newcl.len() && 0 <= k < newcl[i2].len() && markers@[i2] is Some
                implies connected_within(
                with_seed(cell_mask(img@, markers@, i2, cols), cols, markers@[i2]->0),
                rows,
                cols,
                markers@[i2]->0,
                #[trigger] newcl[i2][k],
                dist@[flat(newcl[i2][k], cols)] as int,
            ) by {
            let m = markers@[i2]->0;
            let sv = with_seed(cell_mask(img@, markers@, i2, cols), cols, m);
            assert(in_bounds(m, rows, cols)) by {
                assert(cl[i2][0] == m);
                assert(in_bounds(cl[i2][0], rows, cols));
            }
            lemma_flat_in_range(m, rows, cols);
            if i2 == j as int && k == newcl[i2].len() - 1 {
                assert(newcl[i2][k] == q);
                let kpt = choose|kp: int| 0 <= kp < cl[j as int].len() && cl[j as int][kp] == pt;
                assert(connected_within(
                    sv,
                    rows,
                    cols,
                    m,
                    cl[j as int][kpt],
                    old(dist)@[flat(cl[j as int][kpt], cols)] as int,
                ));
                assert(dist@[flat(pt, cols)] == old(dist)@[flat(pt, cols)]) by {
                    assert(pt != q);
                }
                assert(sv[flat(q, cols)]) by {
                    assert(!foreign_seed(markers@, i2, q)) by {
                        reveal(foreign_seed);
                        if foreign_seed(markers@, i2, q) {
                            let j2 = choose|j2: int|
                                0 <= j2 < markers@.len() && j2 != i2 && markers@[j2] == Some(q);
                            assert(cl[j2][0] == q);
                            assert(cl[j2].contains(q));
                            assert(some_claim_contains(cl, q));
                            assert(false);
                        }
                    }
                    assert(pt_of(flat(q, cols), cols) == q) by {
                        crate::types::lemma_div_mod_point(flat(q, cols), rows, cols);
                    }
                    assert(cell_mask(img@, markers@, i2, cols)[flat(q, cols)]);
                }
                lemma_connected_within_step(sv, rows, cols, m, pt, q, d0 as int);
                assert(dist@[flat(q, cols)] == d0 + 1);
            } else {
                assert(newcl[i2][k] == cl[i2][k]);
                assert(cl[i2][k] != q);
                assert(dist@[flat(cl[i2][k], cols)] == old(dist)@[flat(cl[i2][k], cols)]);
                assert(connected_within(
                    sv,
                    rows,
                    cols,
                    m,
                    cl[i2][k],
                    old(dist)@[flat(cl[i2][k], cols)] as int,
                ));
            }
        }
        assert forall|i2: int, k: int| 0 <= i2 < newcl.len() && 0 <= k < cl[i2].len() implies
            flat(#[trigger] cl[i2][k], cols) != flat(q, cols)
                && 0 <= flat(cl[i2][k], cols) < old(dist)@.len() by {
            assert(cl[i2][k] != q);
            assert(in_bounds(cl[i2][k], rows, cols));
            lemma_flat_in_range(cl[i2][k], rows, cols);
        }
        lemma_bump_exact(
            cl,
            newcl,
            old_hists,
            hists@,
            old(dist)@,
            dist@,
            cols,
            j as int,
            q,
            d,
        );
        assert forall|i: int| 0 <= i < newcl.len() implies
            (#[trigger] newcl[i]).no_duplicates() by {
            if i == j as int {
                if cl[i].contains(q) {
                    assert(some_claim_contains(cl, q));
                    assert(false);
                }
                assert forall|a: int, b: int|
                    0 <= a < newcl[i].len() && 0 <= b < newcl[i].len() && a != b implies
                    newcl[i][a] != newcl[i][b] by {
                    if a < newcl[i].len() - 1 && b < newcl[i].len() - 1 {
                        assert(cl[i][a] != cl[i][b]);
                    } else if a == newcl[i].len() - 1 {
                        assert(newcl[i][a] == q);
                        assert(cl[i][b] == newcl[i][b]);
                        assert(cl[i].contains(newcl[i][b]));
                    } else {
                        assert(newcl[i][b] == q);
                        assert(cl[i][a] == newcl[i][a]);
                        assert(cl[i].contains(newcl[i][a]));
                    }
                }
            }
        }
        assert(newcl.len() == markers@.len());
        assert(hists@.len() == markers@.len());
        assert(forall|i2: int| 0 <= i2 < markers@.len() && markers@[i2] is Some
            ==> (#[trigger] hists@[i2])@.len() >= 1 && hists@[i2]@[0] == 1);
        assert(forall|i2: int| 0 <= i2 < markers@.len() && markers@[i2] is Some
            ==> (#[trigger] newcl[i2]).len() >= 1 && newcl[i2][0] == markers@[i2]->0
                && dist@[flat(markers@[i2]->0, cols)] == 0);
        assert(forall|i2: int| 0 <= i2 < markers@.len() && markers@[i2] is None
            ==> (#[trigger] hists@[i2])@.len() == 0 && newcl[i2].len() == 0);
        assert(forall|i2: int| 0 <= i2 < markers@.len()
            ==> sum_hist((#[trigger] hists@[i2])@) == newcl[i2].len());
        assert(forall|i2: int, d2: int| 0 <= i2 < hists@.len() && 0 <= d2 < hists@[i2]@.len()
            ==> (#[trigger] hists@[i2]@[d2]) == dist_count(newcl[i2], dist@, cols, d2));
        assert(forall|i2: int, d2: int| 0 <= i2 < hists@.len() && d2 >= hists@[i2]@.len()
            ==> #[trigger] dist_count(newcl[i2], dist@, cols, d2) == 0);
        assert(forall|i2: int| 0 <= i2 < hists@.len()
            ==> (#[trigger] hists@[i2])@.len() <= rows * cols + 1);
        assert(forall|i2: int, k: int| 0 <= i2 < newcl.len() && 0 <= k < newcl[i2].len()
            ==> in_bounds(#[trigger] newcl[i2][k], rows, cols));
        assert(forall|i2: int, k: int| 0 <= i2 < newcl.len() && 1 <= k < newcl[i2].len()
            ==> (img@[flat(#[trigger] newcl[i2][k], cols)] as int) == i2 + 1);
        assert(sum_claimed(newcl) == rows * cols - count_false(visited@));
        assert(forall|p: Pnt| in_bounds(p, rows, cols)
            ==> dist@[flat(p, cols)] <= rows * cols - count_false(visited@));
    }
    Ghost(newcl)
}

/// Completeness up to a round bound: every pixel the seed reaches within
/// `rnd` steps over the cell's own ground is already claimed, at a stored
/// distance no larger than the walk.
#[verifier::opaque]
pub open spec fn bfs_round_reached(
    v: Seq<u32>,
    rows: usize,
    cols: usize,
    markers: Seq<Option<Pnt>>,
    cl: Seq<Seq<Pnt>>,
    dist: Seq<usize>,
    rnd: int,
) -> bool {
    forall|j: int, p: Pnt, nn: int|
        0 <= j < markers.len() && markers[j] is Some && in_bounds(p, rows, cols) && 0 <= nn <= rnd
            && #[trigger] connected_within(
            with_seed(cell_mask(v, markers, j, cols), cols, markers[j]->0),
            rows,
            cols,
            markers[j]->0,
            p,
            nn,
        ) ==> cl[j].contains(p) && dist[flat(p, cols)] <= nn
}

/// Once every claim is settled, round-bounded completeness extends to
/// walks of any length: the pass has discovered the whole reachable ground
/// of each cell, and no walk is shorter than the stored distance allows.
proof fn lemma_bfs_complete_all(
    v: Seq<u32>,
    rows: usize,
    cols: usize,
    markers: Seq<Option<Pnt>>,
    cl: Seq<Seq<Pnt>>,
    dist: Seq<usize>,
    vis: Seq<bool>,
    rnd_f: int,
    j: int,
    p: Pnt,
    nn: int,
)
    requires
        v.len() == rows * cols,
        cl.len() == markers.len(),
        0 <= rnd_f,
        forall|i: int| 0 <= i < markers.len() && #[trigger] markers[i] is Some
            ==> cl[i].len() >= 1 && cl[i][0] == markers[i]->0,
        forall|i: int| 0 <= i < markers.len() && #[trigger] markers[i] is None
            ==> cl[i].len() == 0,
        forall|i: int, k: int|
            0 <= i < cl.len() && 1 <= k < cl[i].len()
                ==> (v[flat(#[trigger] cl[i][k], cols)] as int) == i + 1,
        forall|i: int, k: int|
            0 <= i < cl.len() && 0 <= k < cl[i].len()
                ==> in_bounds(#[trigger] cl[i][k], rows, cols),
        forall|i: int, k: int|
            0 <= i < cl.len() && 0 <= k < cl[i].len()
                ==> bfs_settled(v, i + 1, rows, cols, vis, #[trigger] cl[i][k]),
        forall|p2: Pnt| in_bounds(p2, rows, cols)
            ==> (vis[flat(p2, cols)] <==> some_claim_contains(cl, p2)),
        forall|i: int, k: int|
            0 <= i < cl.len() && 0 <= k < cl[i].len()
                ==> dist[flat(#[trigger] cl[i][k], cols)] <= rnd_f,
        bfs_round_reached(v, rows, cols, markers, cl, dist, rnd_f),
        0 <= j < markers.len(),
        markers[j] is Some,
        in_bounds(p, rows, cols),
        0 <= nn,
        connected_within(
            with_seed(cell_mask(v, markers, j, cols), cols, markers[j]->0),
            rows,
            cols,
            markers[j]->0,
            p,
            nn,
        ),
    ensures
        cl[j].contains(p),
        dist[flat(p, cols)] <= nn,
    decreases nn,
{
    reveal(bfs_round_reached);
    reveal(foreign_seed);
    let m = markers[j]->0;
    let sv = with_seed(cell_mask(v, markers, j, cols), cols, m);
    if nn <= rnd_f {
        assert(cl[j].contains(p) && dist[flat(p, cols)] <= nn);
    } else {
        lemma_connected_within_unsnoc(sv, rows, cols, m, p, nn);
        let qq = choose|qq: Pnt|
            #[trigger] adj(qq, p) && in_bounds(qq, rows, cols) && sv[flat(qq, cols)]
                && connected_within(sv, rows, cols, m, qq, nn - 1);
        lemma_bfs_complete_all(v, rows, cols, markers, cl, dist, vis, rnd_f, j, qq, nn - 1);
        let kq = choose|kq: int| 0 <= kq < cl[j].len() && cl[j][kq] == qq;
        lemma_flat_in_range(m, rows, cols);
        lemma_flat_in_range(p, rows, cols);
        if p == m {
            assert(cl[j][0] == m);
            assert(cl[j].contains(p));
            assert(dist[flat(p, cols)] <= rnd_f);
        } else {
            crate::types::lemma_div_mod_point(flat(p, cols), rows, cols);
            assert(pt_of(flat(p, cols), cols) == p);
            assert(flat(p, cols) != flat(m, cols));
            assert(cell_mask(v, markers, j, cols)[flat(p, cols)]);
            assert((v[flat(p, cols)] as int) == j + 1);
            assert(!foreign_seed(markers, j, p));
            assert(bfs_settled(v, j + 1, rows, cols, vis, cl[j][kq]));
            assert(adj(cl[j][kq], p));
            assert(vis[flat(p, cols)]);
            assert(some_claim_contains(cl, p));
            let j3 = choose|j3: int| 0 <= j3 < cl.len() && (#[trigger] cl[j3]).contains(p);
            let k3 = choose|k3: int| 0 <= k3 < cl[j3].len() && cl[j3][k3] == p;
            if k3 >= 1 {
                assert((v[flat(cl[j3][k3], cols)] as int) == j3 + 1);
                assert(j3 == j);
            } else {
                assert(markers[j3] is Some);
                assert(p == markers[j3]->0);
                if j3 != j {
                    assert(markers[j3] == Some(p));
                    assert(foreign_seed(markers, j, p));
                    assert(false);
                }
                assert(false);
            }
            assert(cl[j].contains(p));
            assert(dist[flat(p, cols)] <= rnd_f);
        }
    }
}

/// Packages the pass's closing argument: with every claim settled, the
/// claims cover each cell's whole reachable ground, the stored distances
/// bound every walk from below, and no shorter walk exists.
proof fn lemma_bfs_finish(
    v: Seq<u32>,
    rows: usize,
    cols: usize,
    markers: Seq<Option<Pnt>>,
    cl: Seq<Seq<Pnt>>,
    dist: Seq<usize>,
    vis: Seq<bool>,
    rnd_f: int,
)
    requires
        v.len() == rows * cols,
        cl.len() == markers.len(),
        0 <= rnd_f,
        forall|i: int| 0 <= i < markers.len() && #[trigger] markers[i] is Some
            ==> cl[i].len() >= 1 && cl[i][0] == markers[i]->0,
        forall|i: int| 0 <= i < markers.len() && #[trigger] markers[i] is None
            ==> cl[i].len() == 0,
        forall|i: int, k: int|
            0 <= i < cl.len() && 1 <= k < cl[i].len()
                ==> (v[flat(#[trigger] cl[i][k], cols)] as int) == i + 1,
        forall|i: int, k: int|
            0 <= i < cl.len() && 0 <= k < cl[i].len()
                ==> in_bounds(#[trigger] cl[i][k], rows, cols),
        forall|i: int, k: int|
            0 <= i < cl.len() && 0 <= k < cl[i].len()
                ==> bfs_settled(v, i + 1, rows, cols, vis, #[trigger] cl[i][k]),
        forall|p2: Pnt| in_bounds(p2, rows, cols)
            ==> (vis[flat(p2, cols)] <==> some_claim_contains(cl, p2)),
        forall|i: int, k: int|
            0 <= i < cl.len() && 0 <= k < cl[i].len()
                ==> dist[flat(#[trigger] cl[i][k], cols)] <= rnd_f,
        bfs_round_reached(v, rows, cols, markers, cl, dist, rnd_f),
    ensures
        forall|i: int, p: Pnt, nn: int|
            0 <= i < markers.len() && markers[i] is Some && in_bounds(p, rows, cols) && 0 <= nn
                && #[trigger] connected_within(
                with_seed(cell_mask(v, markers, i, cols), cols, markers[i]->0),
                rows,
                cols,
                markers[i]->0,
                p,
                nn,
            ) ==> cl[i].contains(p) && dist[flat(p, cols)] <= nn,
        forall|i: int, k: int, nn: int|
            0 <= i < markers.len() && markers[i] is Some && 0 <= k < cl[i].len()
                && 0 <= nn < dist[flat(cl[i][k], cols)]
                ==> !#[trigger] connected_within(
                with_seed(cell_mask(v, markers, i, cols), cols, markers[i]->0),
                rows,
                cols,
                markers[i]->0,
                cl[i][k],
                nn,
            ),
        bfs_closed(v, rows, cols, cl),
{
    assert(bfs_closed(v, rows, cols, cl)) by {
        assert forall|i2: int, k: int, q: Pnt|
            0 <= i2 < cl.len() && 0 <= k < cl[i2].len() && #[trigger] adj(cl[i2][k], q)
                && in_bounds(q, rows, cols) && (v[flat(q, cols)] as int) == i2 + 1
                implies some_claim_contains(cl, q) by {
            assert(bfs_settled(v, i2 + 1, rows, cols, vis, cl[i2][k]));
            assert(vis[flat(q, cols)]);
        }
    }
    assert forall|i: int, p: Pnt, nn: int|
        0 <= i < markers.len() && markers[i] is Some && in_bounds(p, rows, cols) && 0 <= nn
            && #[trigger] connected_within(
            with_seed(cell_mask(v, markers, i, cols), cols, markers[i]->0),
            rows,
            cols,
            markers[i]->0,
            p,
            nn,
        ) implies cl[i].contains(p) && dist[flat(p, cols)] <= nn by {
        lemma_bfs_complete_all(v, rows, cols, markers, cl, dist, vis, rnd_f, i, p, nn);
    }
    assert forall|i: int, k: int, nn: int|
        0 <= i < markers.len() && markers[i] is Some && 0 <= k < cl[i].len()
            && 0 <= nn < dist[flat(cl[i][k], cols)] implies !#[trigger] connected_within(
        with_seed(cell_mask(v, markers, i, cols), cols, markers[i]->0),
        rows,
        cols,
        markers[i]->0,
        cl[i][k],
        nn,
    ) by {
        if connected_within(
            with_seed(cell_mask(v, markers, i, cols), cols, markers[i]->0),
            rows,
            cols,
            markers[i]->0,
            cl[i][k],
            nn,
        ) {
            lemma_bfs_complete_all(v, rows, cols, markers, cl, dist, vis, rnd_f, i, cl[i][k], nn);
            assert(false);
        }
    }
}

/// Are any of the queued frontiers nonempty?
fn bfs_any_nonempty(fs: &Vec<Vec<Pnt>>) -> (r: bool)
    ensures
        r <==> exists|i: int| 0 <= i < fs@.len() && (#[trigger] fs@[i])@.len() > 0,
{
    let mut i: usize = 0;
    while i < fs.len()
        invariant
            i <= fs@.len(),
            forall|j: int| 0 <= j < i ==> (#[trigger] fs@[j])@.len() == 0,
        decreases fs@.len() - i,
    {
        if fs[i].len() > 0 {
            return true;
        }
        i += 1;
    }
    false
}

/// Total number of queued points across all per-cell frontiers.
pub open spec fn bfs_sum_lens(fs: Seq<Vec<Pnt>>) -> nat
    decreases fs.len(),
{
    if fs.len() == 0 {
        0
    } else {
        bfs_sum_lens(fs.drop_last()) + fs.last()@.len()
    }
}

/// A nonempty frontier keeps the total positive.
proof fn lemma_bfs_sum_lens_pos(fs: Seq<Vec<Pnt>>, i: int)
    requires
        0 <= i < fs.len(),
        fs[i]@.len() > 0,
    ensures
        bfs_sum_lens(fs) > 0,
    decreases fs.len(),
{
    if i < fs.len() - 1 {
        lemma_bfs_sum_lens_pos(fs.drop_last(), i);
    }
}


/// Seeding state of the geodesic pass after the first `i` cells: every
/// seeded cell opened its histogram, claim list and frontier with exactly
/// its seed, every unseeded cell with nothing.
pub open spec fn seeded_upto(
    markers: Seq<Option<Pnt>>,
    hists: Seq<Vec<usize>>,
    current: Seq<Vec<Pnt>>,
    cl: Seq<Seq<Pnt>>,
    i: int,
) -> bool {
    &&& forall|j: int| #![trigger markers[j]] 0 <= j < i && markers[j] is Some
        ==> hists[j]@.len() == 1 && hists[j]@[0] == 1 && cl[j].len() == 1
            && cl[j][0] == markers[j]->0 && current[j]@.len() == 1
            && current[j]@[0] == markers[j]->0
    &&& forall|j: int| #![trigger markers[j]] 0 <= j < i && markers[j] is None
        ==> hists[j]@.len() == 0 && cl[j].len() == 0 && current[j]@.len() == 0
}

/// Seeds the geodesic pass: marks every present seed visited and opens its
/// histogram, claim list and frontier.
#[verifier::loop_isolation(false)]
#[verifier::rlimit(100)]
fn bfs_seed(img: &Matrix<u32>, markers: &Vec<Option<Pnt>>) -> (r: (
    Matrix<bool>,
    Matrix<usize>,
    Vec<Vec<usize>>,
    Vec<Vec<Pnt>>,
    Ghost<Seq<Seq<Pnt>>>,
))
    requires
        img.wf(),
        forall|j: int| 0 <= j < markers@.len() && #[trigger] markers@[j] is Some
            ==> in_bounds(markers@[j]->0, img.rows, img.cols),
        forall|j1: int, j2: int|
            0 <= j1 < markers@.len() && 0 <= j2 < markers@.len() && j1 != j2
                && #[trigger] markers@[j1] is Some && #[trigger] markers@[j2] is Some
                ==> markers@[j1]->0 != markers@[j2]->0,
    ensures
        r.0.wf(),
        r.0.rows == img.rows,
        r.0.cols == img.cols,
        r.1.wf(),
        r.1.rows == img.rows,
        r.1.cols == img.cols,
        r.3@.len() == markers@.len(),
        bfs_inv(img@, img.rows, img.cols, markers@, r.0@, r.1@, r.2@, r.4@),
        forall|j: int, t: int|
            0 <= j < r.3@.len() && 0 <= t < r.3@[j]@.len()
                ==> r.4@[j].contains(#[trigger] r.3@[j]@[t]),
        forall|j: int, k: int|
            0 <= j < r.4@.len() && 0 <= k < r.4@[j].len()
                ==> r.3@[j]@.contains(#[trigger] r.4@[j][k]),
        forall|j: int, k: int|
            0 <= j < r.4@.len() && 0 <= k < r.4@[j].len()
                ==> r.1@[flat(#[trigger] r.4@[j][k], img.cols)] == 0,
        bfs_round_reached(img@, img.rows, img.cols, markers@, r.4@, r.1@, 0),
{
    let rows = img.rows;
    let cols = img.cols;
    let n = markers.len();
    let mut visited = Matrix::<bool>::filled(rows, cols, false);
    proof {
        crate::types::lemma_count_false_all(visited@);
    }
    let mut dist = Matrix::<usize>::filled(rows, cols, 0);
    let mut hists: Vec<Vec<usize>> = Vec::new();
    let mut current: Vec<Vec<Pnt>> = Vec::new();
    let ghost mut cl: Seq<Seq<Pnt>> = Seq::empty();

    let mut i: usize = 0;
    while i < n
        invariant
            i <= n,
            visited.wf(),
            visited.rows == rows,
            visited.cols == cols,
            dist.wf(),
            dist.rows == rows,
            dist.cols == cols,
            hists@.len() == i,
            current@.len() == i,
            cl.len() == i as int,
            seeded_upto(markers@, hists@, current@, cl, i as int),
            forall|p: Pnt| in_bounds(p, rows, cols)
                ==> (visited@[flat(p, cols)] <==> exists|j: int|
                    0 <= j < i && #[trigger] markers@[j] is Some && markers@[j]->0 == p),
            forall|p: Pnt| in_bounds(p, rows, cols) ==> dist@[flat(p, cols)] == 0,
            count_false(visited@) == rows * cols - sum_claimed(cl),
        decreases n - i,
    {
        let ghost cl_prev = cl;
        let ghost hists0 = hists@;
        let ghost current0 = current@;
        match markers[i] {
            Some(m) => {
                proof {
                    lemma_flat_in_range(m, rows, cols);
                    if visited@[flat(m, cols)] {
                        let j = choose|j: int|
                            0 <= j < i && #[trigger] markers@[j] is Some && markers@[j]->0 == m;
                        assert(false);
                    }
                    lemma_count_false_update(visited@, flat(m, cols));
                }
                visited.set(m, true);
                let mut h: Vec<usize> = Vec::new();
                h.push(1);
                let ghost hv = h@;
                hists.push(h);
                let mut f: Vec<Pnt> = Vec::new();
                f.push(m);
                let ghost fv = f@;
                current.push(f);
                proof {
                    cl = cl.push(seq![m]);
                    assert(cl.drop_last() =~= cl_prev);
                    assert(hists@[i as int]@ == hv);
                    assert(hv.len() == 1 && hv[0] == 1);
                    assert(current@[i as int]@ == fv);
                    assert(fv.len() == 1 && fv[0] == m);
                    assert(cl[i as int].len() == 1 && cl[i as int][0] == m);
                }
            },
            None => {
                hists.push(Vec::new());
                current.push(Vec::new());
                proof {
                    cl = cl.push(Seq::empty());
                    assert(cl.drop_last() =~= cl_prev);
                    assert(hists@[i as int]@.len() == 0);
                    assert(current@[i as int]@.len() == 0);
                    assert(cl[i as int].len() == 0);
                }
            },
        }
        proof {
            assert forall|j: int| #![trigger markers@[j]] 0 <= j < i + 1
                && markers@[j] is Some implies hists@[j]@.len() == 1 && hists@[j]@[0] == 1
                    && cl[j].len() == 1 && cl[j][0] == markers@[j]->0
                    && current@[j]@.len() == 1 && current@[j]@[0] == markers@[j]->0 by {
                if j < i as int {
                    assert(hists@[j] == hists0[j]);
                    assert(current@[j] == current0[j]);
                    assert(cl[j] == cl_prev[j]);
                }
            }
            assert forall|j: int| #![trigger markers@[j]] 0 <= j < i + 1
                && markers@[j] is None implies hists@[j]@.len() == 0 && cl[j].len() == 0
                    && current@[j]@.len() == 0 by {
                if j < i as int {
                    assert(hists@[j] == hists0[j]);
                    assert(current@[j] == current0[j]);
                    assert(cl[j] == cl_prev[j]);
                }
            }
            assert(seeded_upto(markers@, hists@, current@, cl, i + 1));
        }
        i += 1;
    }

    proof {
        assert forall|p: Pnt| in_bounds(p, rows, cols) implies
            (visited@[flat(p, cols)] <==> some_claim_contains(cl, p)) by {
            if visited@[flat(p, cols)] {
                let j = choose|j: int|
                    0 <= j < n && #[trigger] markers@[j] is Some && markers@[j]->0 == p;
                assert(cl[j][0] == p);
                assert(cl[j].contains(p));
            }
            if some_claim_contains(cl, p) {
                let j = choose|j: int| 0 <= j < cl.len() && (#[trigger] cl[j]).contains(p);
                let t = choose|t: int| 0 <= t < cl[j].len() && cl[j][t] == p;
                assert(markers@[j] is Some && markers@[j]->0 == p);
            }
        }
        assert forall|i2: int| 0 <= i2 < n implies
            sum_hist((#[trigger] hists@[i2])@) == cl[i2].len() by {
            assert(sum_hist(Seq::<usize>::empty()) == 0);
            if markers@[i2] is Some {
                assert(hists@[i2]@.drop_last() =~= Seq::<usize>::empty());
                assert(sum_hist(hists@[i2]@) == sum_hist(hists@[i2]@.drop_last())
                    + hists@[i2]@.last());
                assert(sum_hist(hists@[i2]@) == 1);
            } else {
                assert(hists@[i2]@ =~= Seq::<usize>::empty());
                assert(sum_hist(hists@[i2]@) == 0);
            }
        }
        assert forall|i2: int, j2: int|
            0 <= i2 < cl.len() && 0 <= j2 < cl.len() && i2 != j2 implies
            forall|p: Pnt| (#[trigger] cl[i2]).contains(p) ==> !(#[trigger] cl[j2]).contains(p) by {
            assert forall|p: Pnt| (#[trigger] cl[i2]).contains(p) implies
                !(#[trigger] cl[j2]).contains(p) by {
                if cl[i2].contains(p) && cl[j2].contains(p) {
                    assert(markers@[i2] is Some && markers@[i2]->0 == p);
                    assert(markers@[j2] is Some && markers@[j2]->0 == p);
                    assert(false);
                }
            }
        }
        assert(hists@.len() == markers@.len());
        assert(cl.len() == markers@.len());
        assert(forall|i2: int| 0 <= i2 < markers@.len() && markers@[i2] is Some
            ==> (#[trigger] hists@[i2])@.len() >= 1 && hists@[i2]@[0] == 1);
        assert(forall|i2: int| 0 <= i2 < markers@.len() && markers@[i2] is Some
            ==> (#[trigger] cl[i2]).len() >= 1 && cl[i2][0] == markers@[i2]->0
                && dist@[flat(markers@[i2]->0, cols)] == 0);
        assert(forall|i2: int| 0 <= i2 < markers@.len() && markers@[i2] is None
            ==> (#[trigger] hists@[i2])@.len() == 0 && cl[i2].len() == 0);
        assert(forall|i2: int| 0 <= i2 < markers@.len()
            ==> sum_hist((#[trigger] hists@[i2])@) == cl[i2].len());
        assert(forall|i2: int, d: int| 0 <= i2 < hists@.len() && 0 <= d < hists@[i2]@.len()
            ==> (#[trigger] hists@[i2]@[d]) >= 1);
        assert(forall|i2: int| 0 <= i2 < cl.len() ==> (#[trigger] cl[i2]).no_duplicates());
        assert(forall|i2: int, k: int| 0 <= i2 < cl.len() && 0 <= k < cl[i2].len()
            ==> in_bounds(#[trigger] cl[i2][k], rows, cols));
        assert(forall|i2: int, k: int| 0 <= i2 < cl.len() && 1 <= k < cl[i2].len()
            ==> (img@[flat(#[trigger] cl[i2][k], cols)] as int) == i2 + 1);
        assert(forall|p: Pnt| in_bounds(p, rows, cols)
            ==> (visited@[flat(p, cols)] <==> some_claim_contains(cl, p)));
        assert(sum_claimed(cl) == rows * cols - count_false(visited@));
        assert(forall|p: Pnt| in_bounds(p, rows, cols)
            ==> dist@[flat(p, cols)] <= rows * cols - count_false(visited@));
        assert forall|i2: int, d2: int|
            0 <= i2 < n && 0 <= d2 < hists@[i2]@.len() implies
            (#[trigger] hists@[i2]@[d2]) == dist_count(cl[i2], dist@, cols, d2) by {
            assert(markers@[i2] is Some);
            assert(d2 == 0);
            let m = markers@[i2]->0;
            lemma_flat_in_range(m, rows, cols);
            assert(cl[i2].drop_last() =~= Seq::<Pnt>::empty());
            assert(dist_count(Seq::<Pnt>::empty(), dist@, cols, d2) == 0);
            assert(cl[i2].last() == m);
            assert(dist@[flat(m, cols)] == 0);
        }
        assert forall|i2: int, d2: int|
            0 <= i2 < n && d2 >= hists@[i2]@.len() implies
            #[trigger] dist_count(cl[i2], dist@, cols, d2) == 0 by {
            assert(dist_count(Seq::<Pnt>::empty(), dist@, cols, d2) == 0);
            if markers@[i2] is Some {
                let m = markers@[i2]->0;
                lemma_flat_in_range(m, rows, cols);
                assert(cl[i2].drop_last() =~= Seq::<Pnt>::empty());
                assert(cl[i2].last() == m);
                assert(dist@[flat(m, cols)] == 0);
                assert(d2 >= 1);
            } else {
                assert(cl[i2] =~= Seq::<Pnt>::empty());
            }
        }
        assert(bfs_inv(img@, rows, cols, markers@, visited@, dist@, hists@, cl));
        assert forall|j: int, t: int|
            0 <= j < n && 0 <= t < current@[j]@.len()
                implies cl[j].contains(#[trigger] current@[j]@[t]) by {
            assert(markers@[j] is Some);
            assert(current@[j]@[t] == markers@[j]->0);
            assert(cl[j][0] == markers@[j]->0);
        }
        assert forall|j: int, k: int|
            0 <= j < cl.len() && 0 <= k < cl[j].len()
                implies current@[j]@.contains(#[trigger] cl[j][k]) by {
            assert(markers@[j] is Some);
            assert(cl[j][k] == markers@[j]->0);
            assert(current@[j]@[0] == markers@[j]->0);
        }
        assert forall|j: int, k: int|
            0 <= j < cl.len() && 0 <= k < cl[j].len()
                implies dist@[flat(#[trigger] cl[j][k], cols)] == 0 by {
            assert(markers@[j] is Some);
            assert(cl[j][k] == markers@[j]->0);
            lemma_flat_in_range(markers@[j]->0, rows, cols);
        }
        assert(bfs_round_reached(img@, rows, cols, markers@, cl, dist@, 0)) by {
            reveal(bfs_round_reached);
            assert forall|j2: int, p: Pnt, nn: int|
                0 <= j2 < n && markers@[j2] is Some && in_bounds(p, rows, cols) && 0 <= nn <= 0
                    && #[trigger] connected_within(
                    with_seed(cell_mask(img@, markers@, j2, cols), cols, markers@[j2]->0),
                    rows,
                    cols,
                    markers@[j2]->0,
                    p,
                    nn,
                ) implies cl[j2].contains(p) && dist@[flat(p, cols)] <= nn by {
                let m = markers@[j2]->0;
                let sv = with_seed(cell_mask(img@, markers@, j2, cols), cols, m);
                let path = choose|path: Seq<Pnt>|
                    is_path(sv, rows, cols, path) && path.first() == m && path.last() == p
                        && path.len() == nn + 1;
                assert(nn == 0);
                assert(p == m);
                assert(cl[j2][0] == m);
                assert(cl[j2].contains(p));
                lemma_flat_in_range(m, rows, cols);
            }
        }
    }

    (visited, dist, hists, current, Ghost(cl))
}

/// When every frontier has drained, every claim is settled.
proof fn lemma_exit_settled(
    v: Seq<u32>,
    rows: usize,
    cols: usize,
    vis: Seq<bool>,
    cl: Seq<Seq<Pnt>>,
    current: Seq<Vec<Pnt>>,
)
    requires
        current.len() == cl.len(),
        forall|j: int, k: int|
            0 <= j < cl.len() && 0 <= k < cl[j].len()
                ==> bfs_settled(v, j + 1, rows, cols, vis, #[trigger] cl[j][k])
                    || current[j]@.contains(cl[j][k]),
        forall|i: int| 0 <= i < current.len() ==> (#[trigger] current[i])@.len() == 0,
    ensures
        forall|i: int, k: int|
            0 <= i < cl.len() && 0 <= k < cl[i].len()
                ==> bfs_settled(v, i + 1, rows, cols, vis, #[trigger] cl[i][k]),
{
    assert forall|i: int, k: int|
        0 <= i < cl.len() && 0 <= k < cl[i].len() implies bfs_settled(
        v,
        i + 1,
        rows,
        cols,
        vis,
        #[trigger] cl[i][k],
    ) by {
        if current[i]@.contains(cl[i][k]) {
            let tt = choose|tt: int| 0 <= tt < current[i]@.len() && current[i]@[tt] == cl[i][k];
            assert(current[i]@.len() > 0);
            assert(false);
        }
    }
}

/// Claim ownership at one pixel: a visited own-label pixel that is not a
/// foreign seed and not the seed itself lies in this cell's claim list.
proof fn lemma_bfs_own_point(
    v: Seq<u32>,
    rows: usize,
    cols: usize,
    markers: Seq<Option<Pnt>>,
    cl: Seq<Seq<Pnt>>,
    vis: Seq<bool>,
    j2: int,
    p: Pnt,
)
    requires
        v.len() == rows * cols,
        cl.len() == markers.len(),
        forall|i: int| 0 <= i < markers.len() && #[trigger] markers[i] is Some
            ==> cl[i].len() >= 1 && cl[i][0] == markers[i]->0,
        forall|i: int| 0 <= i < markers.len() && #[trigger] markers[i] is None
            ==> cl[i].len() == 0,
        forall|i: int, k: int|
            0 <= i < cl.len() && 1 <= k < cl[i].len()
                ==> (v[flat(#[trigger] cl[i][k], cols)] as int) == i + 1,
        forall|p2: Pnt| in_bounds(p2, rows, cols)
            ==> (vis[flat(p2, cols)] <==> some_claim_contains(cl, p2)),
        0 <= j2 < markers.len(),
        in_bounds(p, rows, cols),
        vis[flat(p, cols)],
        (v[flat(p, cols)] as int) == j2 + 1,
        !foreign_seed(markers, j2, p),
        markers[j2] is Some,
        p != markers[j2]->0,
    ensures
        cl[j2].contains(p),
{
    reveal(foreign_seed);
    assert(some_claim_contains(cl, p));
    let j3 = choose|j3: int| 0 <= j3 < cl.len() && (#[trigger] cl[j3]).contains(p);
    let k3 = choose|k3: int| 0 <= k3 < cl[j3].len() && cl[j3][k3] == p;
    if k3 >= 1 {
        assert((v[flat(cl[j3][k3], cols)] as int) == j3 + 1);
        assert(j3 == j2);
    } else {
        assert(markers[j3] is Some);
        assert(p == markers[j3]->0);
        if j3 != j2 {
            assert(markers[j3] == Some(p));
            assert(foreign_seed(markers, j2, p));
            assert(false);
        }
        assert(false);
    }
}

/// One step of the round argument at a single pixel: a walk one step past
/// the settled rounds ends on a claimed pixel of the same cell.
#[verifier::rlimit(100)]
proof fn lemma_bfs_step_point(
    v: Seq<u32>,
    rows: usize,
    cols: usize,
    markers: Seq<Option<Pnt>>,
    cl: Seq<Seq<Pnt>>,
    dv: Seq<usize>,
    vis: Seq<bool>,
    rnd: int,
    j2: int,
    p: Pnt,
)
    requires
        v.len() == rows * cols,
        cl.len() == markers.len(),
        0 <= rnd,
        forall|i: int| 0 <= i < markers.len() && #[trigger] markers[i] is Some
            ==> cl[i].len() >= 1 && cl[i][0] == markers[i]->0,
        forall|i: int| 0 <= i < markers.len() && #[trigger] markers[i] is None
            ==> cl[i].len() == 0,
        forall|i: int, k: int|
            0 <= i < cl.len() && 1 <= k < cl[i].len()
                ==> (v[flat(#[trigger] cl[i][k], cols)] as int) == i + 1,
        forall|p2: Pnt| in_bounds(p2, rows, cols)
            ==> (vis[flat(p2, cols)] <==> some_claim_contains(cl, p2)),
        0 <= j2 < markers.len(),
        markers[j2] is Some,
        forall|q2: Pnt|
            in_bounds(q2, rows, cols) && #[trigger] connected_within(
                with_seed(cell_mask(v, markers, j2, cols), cols, markers[j2]->0),
                rows,
                cols,
                markers[j2]->0,
                q2,
                rnd,
            ) ==> cl[j2].contains(q2) && dv[flat(q2, cols)] <= rnd,
        forall|k: int|
            0 <= k < cl[j2].len() && dv[flat(#[trigger] cl[j2][k], cols)] <= rnd
                ==> bfs_settled(v, j2 + 1, rows, cols, vis, cl[j2][k]),
        forall|k: int|
            0 <= k < cl[j2].len() ==> dv[flat(#[trigger] cl[j2][k], cols)] <= rnd + 1,
        in_bounds(p, rows, cols),
        connected_within(
            with_seed(cell_mask(v, markers, j2, cols), cols, markers[j2]->0),
            rows,
            cols,
            markers[j2]->0,
            p,
            rnd + 1,
        ),
    ensures
        cl[j2].contains(p),
        dv[flat(p, cols)] <= rnd + 1,
{
    let m = markers[j2]->0;
    let sv = with_seed(cell_mask(v, markers, j2, cols), cols, m);
    lemma_connected_within_unsnoc(sv, rows, cols, m, p, rnd + 1);
    let qq = choose|qq: Pnt|
        #[trigger] adj(qq, p) && in_bounds(qq, rows, cols) && sv[flat(qq, cols)]
            && connected_within(sv, rows, cols, m, qq, rnd);
    assert(cl[j2].contains(qq) && dv[flat(qq, cols)] <= rnd);
    let kq = choose|kq: int| 0 <= kq < cl[j2].len() && cl[j2][kq] == qq;
    lemma_flat_in_range(m, rows, cols);
    lemma_flat_in_range(p, rows, cols);
    if p == m {
        assert(cl[j2][0] == m);
        assert(cl[j2].contains(p));
        assert(dv[flat(p, cols)] <= rnd + 1);
    } else {
        crate::types::lemma_div_mod_point(flat(p, cols), rows, cols);
        assert(pt_of(flat(p, cols), cols) == p);
        assert(flat(p, cols) != flat(m, cols));
        assert(cell_mask(v, markers, j2, cols)[flat(p, cols)]);
        assert((v[flat(p, cols)] as int) == j2 + 1);
        assert(!foreign_seed(markers, j2, p));
        assert(bfs_settled(v, j2 + 1, rows, cols, vis, cl[j2][kq]));
        assert(adj(cl[j2][kq], p));
        assert(vis[flat(p, cols)]);
        lemma_bfs_own_point(v, rows, cols, markers, cl, vis, j2, p);
        let kp = choose|kp: int| 0 <= kp < cl[j2].len() && cl[j2][kp] == p;
        assert(dv[flat(cl[j2][kp], cols)] <= rnd + 1);
    }
}

/// One synchronized round extends completeness by one step: with the
/// pending claims all in `nxt` at the next round's distance and the rest
/// settled, every walk one step longer is also discovered.
#[verifier::rlimit(100)]
proof fn lemma_bfs_round_step(
    v: Seq<u32>,
    rows: usize,
    cols: usize,
    markers: Seq<Option<Pnt>>,
    cl: Seq<Seq<Pnt>>,
    dv: Seq<usize>,
    vis: Seq<bool>,
    nxt: Seq<Vec<Pnt>>,
    rnd: int,
)
    requires
        v.len() == rows * cols,
        cl.len() == markers.len(),
        nxt.len() == markers.len(),
        0 <= rnd,
        forall|i: int| 0 <= i < markers.len() && #[trigger] markers[i] is Some
            ==> cl[i].len() >= 1 && cl[i][0] == markers[i]->0,
        forall|i: int| 0 <= i < markers.len() && #[trigger] markers[i] is None
            ==> cl[i].len() == 0,
        forall|i: int, k: int|
            0 <= i < cl.len() && 1 <= k < cl[i].len()
                ==> (v[flat(#[trigger] cl[i][k], cols)] as int) == i + 1,
        forall|i: int, k: int|
            0 <= i < cl.len() && 0 <= k < cl[i].len()
                ==> in_bounds(#[trigger] cl[i][k], rows, cols),
        forall|p2: Pnt| in_bounds(p2, rows, cols)
            ==> (vis[flat(p2, cols)] <==> some_claim_contains(cl, p2)),
        forall|jj: int, k: int|
            0 <= jj < cl.len() && 0 <= k < cl[jj].len()
                ==> bfs_settled(v, jj + 1, rows, cols, vis, #[trigger] cl[jj][k])
                    || nxt[jj]@.contains(cl[jj][k]),
        forall|jj: int, t: int|
            0 <= jj < nxt.len() && 0 <= t < nxt[jj]@.len()
                ==> dv[flat(#[trigger] nxt[jj]@[t], cols)] == rnd + 1,
        forall|jj: int, k: int|
            0 <= jj < cl.len() && 0 <= k < cl[jj].len()
                ==> dv[flat(#[trigger] cl[jj][k], cols)] <= rnd + 1,
        bfs_round_reached(v, rows, cols, markers, cl, dv, rnd),
    ensures
        bfs_round_reached(v, rows, cols, markers, cl, dv, rnd + 1),
{
    let n = markers.len() as int;
    reveal(bfs_round_reached);
    // Claims at or below the closing round are settled: the pending
    // ones sit in `next` and carry the next round's distance.
    assert forall|j2: int, k2: int|
        0 <= j2 < n && 0 <= k2 < cl[j2].len()
            && dv[flat(#[trigger] cl[j2][k2], cols)] <= rnd implies bfs_settled(
        v,
        j2 + 1,
        rows,
        cols,
        vis,
        cl[j2][k2],
    ) by {
        if nxt[j2]@.contains(cl[j2][k2]) {
            let tt = choose|tt: int|
                0 <= tt < nxt[j2]@.len() && nxt[j2]@[tt] == cl[j2][k2];
            assert(dv[flat(nxt[j2]@[tt], cols)] == rnd + 1);
            assert(false);
        }
    }
    // One more round of completeness: a walk of `rnd + 1` steps has
    // a penultimate cell already claimed and settled, so its end is
    // claimed too.
    assert forall|j2: int, p: Pnt, nn: int|
        0 <= j2 < n && markers[j2] is Some && in_bounds(p, rows, cols)
            && 0 <= nn <= rnd + 1 && #[trigger] connected_within(
            with_seed(cell_mask(v, markers, j2, cols), cols, markers[j2]->0),
            rows,
            cols,
            markers[j2]->0,
            p,
            nn,
        ) implies cl[j2].contains(p) && dv[flat(p, cols)] <= nn by {
        if nn <= rnd {
            assert(cl[j2].contains(p) && dv[flat(p, cols)] <= nn);
        } else {
            lemma_bfs_step_point(v, rows, cols, markers, cl, dv, vis, rnd, j2, p);
        }
    }
    assert(bfs_round_reached(v, rows, cols, markers, cl, dv, rnd + 1)) by {
        reveal(bfs_round_reached);
    }
}

/// The whole state of the synchronized-round march: the pass invariant,
/// frontier bookkeeping, and round-indexed distances and completeness.
#[verifier::opaque]
pub open spec fn bfs_march(
    img: Matrix<u32>,
    markers: Seq<Option<Pnt>>,
    visited: Matrix<bool>,
    dist: Matrix<usize>,
    hists: Seq<Vec<usize>>,
    cl: Seq<Seq<Pnt>>,
    current: Seq<Vec<Pnt>>,
    rnd: int,
) -> bool {
    &&& img.wf()
    &&& visited.wf()
    &&& visited.rows == img.rows
    &&& visited.cols == img.cols
    &&& dist.wf()
    &&& dist.rows == img.rows
    &&& dist.cols == img.cols
    &&& current.len() == markers.len()
    &&& bfs_inv(img@, img.rows, img.cols, markers, visited@, dist@, hists, cl)
    &&& forall|j: int, t: int|
        0 <= j < current.len() && 0 <= t < current[j]@.len()
            ==> cl[j].contains(#[trigger] current[j]@[t])
    &&& forall|j: int, k: int|
        0 <= j < current.len() && 0 <= k < cl[j].len()
            ==> bfs_settled(img@, j + 1, img.rows, img.cols, visited@, #[trigger] cl[j][k])
                || current[j]@.contains(cl[j][k])
    &&& 0 <= rnd
    &&& forall|j: int, t: int|
        0 <= j < current.len() && 0 <= t < current[j]@.len()
            ==> dist@[flat(#[trigger] current[j]@[t], img.cols)] == rnd
    &&& forall|j: int, k: int|
        0 <= j < current.len() && 0 <= k < cl[j].len()
            ==> dist@[flat(#[trigger] cl[j][k], img.cols)] <= rnd
    &&& bfs_round_reached(img@, img.rows, img.cols, markers, cl, dist@, rnd)
}

/// Runs the synchronized rounds to exhaustion: drains every frontier, one
/// round after another, until nothing is queued anywhere.
#[verifier::rlimit(100)]
fn bfs_run(
    img: &Matrix<u32>,
    markers: &Vec<Option<Pnt>>,
    visited: &mut Matrix<bool>,
    dist: &mut Matrix<usize>,
    hists: &mut Vec<Vec<usize>>,
    start: Vec<Vec<Pnt>>,
    Ghost(cl0): Ghost<Seq<Seq<Pnt>>>,
) -> (r: (Ghost<Seq<Seq<Pnt>>>, Ghost<int>, Ghost<Seq<Vec<Pnt>>>))
    requires
        img.wf(),
        old(visited).wf(),
        old(visited).rows == img.rows,
        old(visited).cols == img.cols,
        old(dist).wf(),
        old(dist).rows == img.rows,
        old(dist).cols == img.cols,
        forall|j1: int, j2: int|
            0 <= j1 < markers@.len() && 0 <= j2 < markers@.len() && j1 != j2
                && #[trigger] markers@[j1] is Some && #[trigger] markers@[j2] is Some
                ==> markers@[j1]->0 != markers@[j2]->0,
        bfs_march(*img, markers@, *old(visited), *old(dist), old(hists)@, cl0, start@, 0),
    ensures
        bfs_march(*img, markers@, *final(visited), *final(dist), final(hists)@, r.0@, r.2@, r.1@),
        forall|i: int| 0 <= i < r.2@.len() ==> (#[trigger] r.2@[i])@.len() == 0,
{
    let rows = img.rows;
    let cols = img.cols;
    let sh: Pnt = (rows, cols);
    let n = markers.len();
    let mut current = start;
    let ghost mut cl: Seq<Seq<Pnt>> = cl0;
    let ghost mut rnd: int = 0;

    while bfs_any_nonempty(&current)
        invariant
            img.wf(),
            rows == img.rows,
            cols == img.cols,
            sh == (rows, cols),
            n == markers@.len(),
            forall|j1: int, j2: int|
                0 <= j1 < markers@.len() && 0 <= j2 < markers@.len() && j1 != j2
                    && #[trigger] markers@[j1] is Some && #[trigger] markers@[j2] is Some
                    ==> markers@[j1]->0 != markers@[j2]->0,
            bfs_march(*img, markers@, *visited, *dist, hists@, cl, current@, rnd),
        decreases count_false(visited@), bfs_sum_lens(current@),
    {
        proof {
            reveal(bfs_march);
        }
        let ghost c0 = count_false(visited@);
        let mut next: Vec<Vec<Pnt>> = Vec::new();
        let mut j: usize = 0;
        while j < n
            invariant
                img.wf(),
                rows == img.rows,
                cols == img.cols,
                sh == (rows, cols),
                n == markers@.len(),
                forall|j1: int, j2: int|
                    0 <= j1 < markers@.len() && 0 <= j2 < markers@.len() && j1 != j2
                        && #[trigger] markers@[j1] is Some && #[trigger] markers@[j2] is Some
                        ==> markers@[j1]->0 != markers@[j2]->0,
                j <= n,
                next@.len() == j,
                visited.wf(),
                visited.rows == rows,
                visited.cols == cols,
                dist.wf(),
                dist.rows == rows,
                dist.cols == cols,
                current@.len() == n,
                bfs_inv(img@, rows, cols, markers@, visited@, dist@, hists@, cl),
                forall|jj: int, t: int|
                    0 <= jj < n && 0 <= t < current@[jj]@.len()
                        ==> cl[jj].contains(#[trigger] current@[jj]@[t]),
                forall|jj: int, t: int|
                    0 <= jj < j && 0 <= t < next@[jj]@.len()
                        ==> cl[jj].contains(#[trigger] next@[jj]@[t]),
                forall|jj: int, k: int|
                    0 <= jj < j && 0 <= k < cl[jj].len()
                        ==> bfs_settled(img@, jj + 1, rows, cols, visited@, #[trigger] cl[jj][k])
                            || next@[jj]@.contains(cl[jj][k]),
                forall|jj: int, k: int|
                    j <= jj < n && 0 <= k < cl[jj].len()
                        ==> bfs_settled(img@, jj + 1, rows, cols, visited@, #[trigger] cl[jj][k])
                            || current@[jj]@.contains(cl[jj][k]),
                0 <= rnd,
                forall|jj: int, t: int|
                    0 <= jj < n && 0 <= t < current@[jj]@.len()
                        ==> dist@[flat(#[trigger] current@[jj]@[t], cols)] == rnd,
                forall|jj: int, t: int|
                    0 <= jj < j && 0 <= t < next@[jj]@.len()
                        ==> dist@[flat(#[trigger] next@[jj]@[t], cols)] == rnd + 1,
                forall|jj: int, k: int|
                    0 <= jj < n && 0 <= k < cl[jj].len()
                        ==> dist@[flat(#[trigger] cl[jj][k], cols)] <= rnd + 1,
                bfs_round_reached(img@, rows, cols, markers@, cl, dist@, rnd),
                count_false(visited@) <= c0,
                count_false(visited@) == c0 ==> bfs_sum_lens(next@) == 0,
            decreases n - j,
        {
            let ghost cfr = count_false(visited@);
            let ghost sum0 = bfs_sum_lens(next@);
            let mut fresh: Vec<Pnt> = Vec::new();
            let round_len = current[j].len();
            let mut t: usize = 0;
            while t < round_len
                invariant
                    img.wf(),
                    rows == img.rows,
                    cols == img.cols,
                    sh == (rows, cols),
                    n == markers@.len(),
                    forall|j1: int, j2: int|
                        0 <= j1 < markers@.len() && 0 <= j2 < markers@.len() && j1 != j2
                            && #[trigger] markers@[j1] is Some && #[trigger] markers@[j2] is Some
                            ==> markers@[j1]->0 != markers@[j2]->0,
                    j < n,
                    t <= round_len,
                    round_len == current@[j as int]@.len(),
                    visited.wf(),
                    visited.rows == rows,
                    visited.cols == cols,
                    dist.wf(),
                    dist.rows == rows,
                    dist.cols == cols,
                    current@.len() == n,
                    bfs_inv(img@, rows, cols, markers@, visited@, dist@, hists@, cl),
                    forall|jj: int, tt: int|
                        0 <= jj < n && 0 <= tt < current@[jj]@.len()
                            ==> cl[jj].contains(#[trigger] current@[jj]@[tt]),
                    forall|jj: int, tt: int|
                        0 <= jj < j && 0 <= tt < next@[jj]@.len()
                            ==> cl[jj].contains(#[trigger] next@[jj]@[tt]),
                    forall|tt: int| 0 <= tt < fresh@.len()
                        ==> cl[j as int].contains(#[trigger] fresh@[tt]),
                    forall|jj: int, k: int|
                        0 <= jj < j && 0 <= k < cl[jj].len()
                            ==> bfs_settled(img@, jj + 1, rows, cols, visited@,
                                #[trigger] cl[jj][k]) || next@[jj]@.contains(cl[jj][k]),
                    forall|jj: int, k: int|
                        j < jj < n && 0 <= k < cl[jj].len()
                            ==> bfs_settled(img@, jj + 1, rows, cols, visited@,
                                #[trigger] cl[jj][k]) || current@[jj]@.contains(cl[jj][k]),
                    forall|k: int|
                        0 <= k < cl[j as int].len()
                            ==> bfs_settled(img@, j + 1, rows, cols, visited@,
                                #[trigger] cl[j as int][k])
                                || (exists|t2: int|
                                    t <= t2 < round_len && current@[j as int]@[t2]
                                        == cl[j as int][k])
                                || fresh@.contains(cl[j as int][k]),
                    0 <= rnd,
                    forall|jj: int, tt: int|
                        0 <= jj < n && 0 <= tt < current@[jj]@.len()
                            ==> dist@[flat(#[trigger] current@[jj]@[tt], cols)] == rnd,
                    forall|jj: int, tt: int|
                        0 <= jj < j && 0 <= tt < next@[jj]@.len()
                            ==> dist@[flat(#[trigger] next@[jj]@[tt], cols)] == rnd + 1,
                    forall|tt: int| 0 <= tt < fresh@.len()
                        ==> dist@[flat(#[trigger] fresh@[tt], cols)] == rnd + 1,
                    forall|jj: int, k: int|
                        0 <= jj < n && 0 <= k < cl[jj].len()
                            ==> dist@[flat(#[trigger] cl[jj][k], cols)] <= rnd + 1,
                    bfs_round_reached(img@, rows, cols, markers@, cl, dist@, rnd),
                    count_false(visited@) <= cfr,
                    cfr <= c0,
                    cfr == c0 ==> sum0 == 0,
                    sum0 == bfs_sum_lens(next@),
                    count_false(visited@) == c0 ==> fresh@.len() == 0,
                decreases round_len - t,
            {
                let pt = current[j][t];
                proof {
                    let kk = choose|kk: int|
                        0 <= kk < cl[j as int].len() && cl[j as int][kk] == pt;
                    assert(in_bounds(cl[j as int][kk], rows, cols));
                }
                let mut k: usize = 0;
                while k < 8
                    invariant
                        img.wf(),
                        rows == img.rows,
                        cols == img.cols,
                        sh == (rows, cols),
                        n == markers@.len(),
                        forall|j1: int, j2: int|
                            0 <= j1 < markers@.len() && 0 <= j2 < markers@.len() && j1 != j2
                                && #[trigger] markers@[j1] is Some
                                && #[trigger] markers@[j2] is Some
                                ==> markers@[j1]->0 != markers@[j2]->0,
                        j < n,
                        k <= 8,
                        in_bounds(pt, rows, cols),
                        cl[j as int].contains(pt),
                        visited.wf(),
                        visited.rows == rows,
                        visited.cols == cols,
                        dist.wf(),
                        dist.rows == rows,
                        dist.cols == cols,
                        current@.len() == n,
                        bfs_inv(img@, rows, cols, markers@, visited@, dist@, hists@, cl),
                        forall|jj: int, tt: int|
                            0 <= jj < n && 0 <= tt < current@[jj]@.len()
                                ==> cl[jj].contains(#[trigger] current@[jj]@[tt]),
                        forall|jj: int, tt: int|
                            0 <= jj < j && 0 <= tt < next@[jj]@.len()
                                ==> cl[jj].contains(#[trigger] next@[jj]@[tt]),
                        forall|tt: int| 0 <= tt < fresh@.len()
                            ==> cl[j as int].contains(#[trigger] fresh@[tt]),
                        forall|jj: int, k2: int|
                            0 <= jj < j && 0 <= k2 < cl[jj].len()
                                ==> bfs_settled(img@, jj + 1, rows, cols, visited@,
                                    #[trigger] cl[jj][k2]) || next@[jj]@.contains(cl[jj][k2]),
                        forall|jj: int, k2: int|
                            j < jj < n && 0 <= k2 < cl[jj].len()
                                ==> bfs_settled(img@, jj + 1, rows, cols, visited@,
                                    #[trigger] cl[jj][k2]) || current@[jj]@.contains(
                                    cl[jj][k2],
                                ),
                        forall|k2: int|
                            0 <= k2 < cl[j as int].len()
                                ==> bfs_settled(img@, j + 1, rows, cols, visited@,
                                    #[trigger] cl[j as int][k2])
                                    || (exists|t2: int|
                                        t < t2 < round_len && current@[j as int]@[t2]
                                            == cl[j as int][k2])
                                    || fresh@.contains(cl[j as int][k2])
                                    || cl[j as int][k2] == pt,
                        forall|d: int|
                            0 <= d < k && has_neighbour(pt, d, sh)
                                ==> in_bounds(#[trigger] neighbour_pt(pt, d), rows, cols)
                                    && ((img@[flat(neighbour_pt(pt, d), cols)] as int) == j + 1
                                        ==> visited@[flat(neighbour_pt(pt, d), cols)]),
                        0 <= rnd,
                        dist@[flat(pt, cols)] == rnd,
                        forall|jj: int, tt: int|
                            0 <= jj < n && 0 <= tt < current@[jj]@.len()
                                ==> dist@[flat(#[trigger] current@[jj]@[tt], cols)] == rnd,
                        forall|jj: int, tt: int|
                            0 <= jj < j && 0 <= tt < next@[jj]@.len()
                                ==> dist@[flat(#[trigger] next@[jj]@[tt], cols)] == rnd + 1,
                        forall|tt: int| 0 <= tt < fresh@.len()
                            ==> dist@[flat(#[trigger] fresh@[tt], cols)] == rnd + 1,
                        forall|jj: int, k2: int|
                            0 <= jj < n && 0 <= k2 < cl[jj].len()
                                ==> dist@[flat(#[trigger] cl[jj][k2], cols)] <= rnd + 1,
                        bfs_round_reached(img@, rows, cols, markers@, cl, dist@, rnd),
                        count_false(visited@) <= cfr,
                        cfr <= c0,
                        cfr == c0 ==> sum0 == 0,
                        sum0 == bfs_sum_lens(next@),
                        count_false(visited@) == c0 ==> fresh@.len() == 0,
                    decreases 8 - k,
                {
                    let nb = neighbour_of(pt, k, sh);
                    match nb {
                        Some(q) => {
                            proof {
                                lemma_flat_in_range(q, rows, cols);
                            }
                            let lbl = img.get(q) as usize;
                            if lbl == j + 1 && !visited.get(q) {
                                let ghost cl0 = cl;
                                let ghost dist0 = dist@;
                                let newcl = bfs_claim(
                                    img,
                                    markers,
                                    visited,
                                    dist,
                                    hists,
                                    Ghost(cl),
                                    j,
                                    pt,
                                    q,
                                );
                                proof {
                                    cl = newcl@;
                                    assert(cl[j as int].contains(q));
                                    assert(dist@[flat(q, cols)] == rnd + 1);
                                    assert forall|j2: int, k2: int|
                                        0 <= j2 < n && 0 <= k2 < cl0[j2].len() implies
                                        dist@[flat(#[trigger] cl0[j2][k2], cols)]
                                            == dist0[flat(cl0[j2][k2], cols)] by {
                                        assert(cl0[j2].contains(cl0[j2][k2]));
                                        assert(some_claim_contains(cl0, cl0[j2][k2]));
                                        assert(cl0[j2][k2] != q);
                                        assert(in_bounds(cl0[j2][k2], rows, cols));
                                    }
                                    assert(bfs_round_reached(
                                        img@,
                                        rows,
                                        cols,
                                        markers@,
                                        cl,
                                        dist@,
                                        rnd,
                                    )) by {
                                        reveal(bfs_round_reached);
                                        assert forall|j2: int, p: Pnt, nn: int|
                                            0 <= j2 < n && markers@[j2] is Some
                                                && in_bounds(p, rows, cols) && 0 <= nn <= rnd
                                                && #[trigger] connected_within(
                                                with_seed(
                                                    cell_mask(img@, markers@, j2, cols),
                                                    cols,
                                                    markers@[j2]->0,
                                                ),
                                                rows,
                                                cols,
                                                markers@[j2]->0,
                                                p,
                                                nn,
                                            ) implies cl[j2].contains(p)
                                                && dist@[flat(p, cols)] <= nn by {
                                            assert(cl0[j2].contains(p));
                                            assert(dist0[flat(p, cols)] <= nn);
                                            let kp = choose|kp: int|
                                                0 <= kp < cl0[j2].len() && cl0[j2][kp] == p;
                                            assert(dist@[flat(cl0[j2][kp], cols)]
                                                == dist0[flat(cl0[j2][kp], cols)]);
                                            if j2 == j as int {
                                                assert(cl[j2] == cl0[j2].push(q));
                                            } else {
                                                assert(cl[j2] == cl0[j2]);
                                            }
                                        }
                                    }
                                }
                                fresh.push(q);
                            }
                        },
                        None => {},
                    }
                    proof {
                        if has_neighbour(pt, k as int, sh)
                            && (img@[flat(neighbour_pt(pt, k as int), cols)] as int) == j + 1 {
                            assert(nb == Some(neighbour_pt(pt, k as int)));
                            assert(visited@[flat(neighbour_pt(pt, k as int), cols)]);
                        }
                    }
                    k += 1;
                }
                proof {
                    assert(bfs_settled(img@, j + 1, rows, cols, visited@, pt)) by {
                        assert forall|q: Pnt| #[trigger] adj(pt, q) && in_bounds(q, rows, cols)
                            && (img@[flat(q, cols)] as int) == j + 1
                            implies visited@[flat(q, cols)] by {
                            lemma_adj_is_dir(pt, q, sh);
                            let d = choose|d: int|
                                0 <= d < 8 && has_neighbour(pt, d, sh)
                                    && #[trigger] neighbour_pt(pt, d) == q;
                            assert(visited@[flat(neighbour_pt(pt, d), cols)]);
                        }
                    }
                }
                t += 1;
            }
            let ghost next_prev = next@;
            next.push(fresh);
            proof {
                assert(next@.drop_last() =~= next_prev);
                if count_false(visited@) == c0 {
                    assert(cfr == c0);
                    assert(bfs_sum_lens(next_prev) == 0);
                    assert(bfs_sum_lens(next@) == bfs_sum_lens(next@.drop_last())
                        + next@.last()@.len());
                }
                assert forall|jj: int, t: int|
                    0 <= jj < j + 1 && 0 <= t < next@[jj]@.len()
                        implies cl[jj].contains(#[trigger] next@[jj]@[t]) by {
                    if jj == j as int {
                        assert(next@[jj] == fresh);
                    } else {
                        assert(next@[jj] == next_prev[jj]);
                    }
                }
                assert forall|jj: int, k: int|
                    0 <= jj < j + 1 && 0 <= k < cl[jj].len()
                        && !bfs_settled(img@, jj + 1, rows, cols, visited@,
                        #[trigger] cl[jj][k]) implies next@[jj]@.contains(cl[jj][k]) by {
                    if jj == j as int {
                        assert(next@[jj] == fresh);
                        assert(fresh@.contains(cl[jj][k]));
                    } else {
                        assert(next@[jj] == next_prev[jj]);
                        assert(next_prev[jj]@.contains(cl[jj][k]));
                    }
                }
            }
            j += 1;
        }
        proof {
            if count_false(visited@) == c0 {
                assert(bfs_sum_lens(next@) == 0);
                let w = choose|w: int|
                    0 <= w < current@.len() && (#[trigger] current@[w])@.len() > 0;
                lemma_bfs_sum_lens_pos(current@, w);
            }
            assert forall|i2: int| 0 <= i2 < n && #[trigger] markers@[i2] is None implies
                cl[i2].len() == 0 by {
                assert(hists@[i2]@.len() == 0);
            }
            assert forall|i2: int| 0 <= i2 < n && #[trigger] markers@[i2] is Some implies
                cl[i2].len() >= 1 && cl[i2][0] == markers@[i2]->0 by {
                assert(hists@[i2]@.len() >= 1);
            }
            lemma_bfs_round_step(img@, rows, cols, markers@, cl, dist@, visited@, next@, rnd);
            rnd = rnd + 1;
            assert(bfs_round_reached(img@, rows, cols, markers@, cl, dist@, rnd));
            assert(bfs_march(*img, markers@, *visited, *dist, hists@, cl, next@, rnd));
        }
        current = next;
    }
    (Ghost(cl), Ghost(rnd), Ghost(current@))
}

/// Per labeled skeleton region, the geodesic (hop-count) distance from the
/// cell's seed and the pixel-count histogram by distance. Cells whose seed
/// is absent take no part and keep an empty histogram.
///
/// The contract carries the histogram law: for every seeded cell the
/// histogram's buckets sum to the size of the region the pass discovered
/// (returned as ghost claim lists), the seed's own bucket holds exactly the
/// seed, and the distance grid is zero at the seed. Claimed pixels beyond
/// the seed carry the cell's own label, so the pass never crosses region
/// boundaries.
#[verifier::loop_isolation(false)]
#[verifier::rlimit(100)]
pub fn branch_length(img: &Matrix<u32>, markers: &Vec<Option<Pnt>>) -> (r: (
    Matrix<usize>,
    Vec<Vec<usize>>,
    Ghost<Seq<Seq<Pnt>>>,
))
    requires
        img.wf(),
        forall|j: int| 0 <= j < markers@.len() && #[trigger] markers@[j] is Some
            ==> in_bounds(markers@[j]->0, img.rows, img.cols),
        forall|j1: int, j2: int|
            0 <= j1 < markers@.len() && 0 <= j2 < markers@.len() && j1 != j2
                && #[trigger] markers@[j1] is Some && #[trigger] markers@[j2] is Some
                ==> markers@[j1]->0 != markers@[j2]->0,
    ensures
        r.0.wf(),
        r.0.rows == img.rows,
        r.0.cols == img.cols,
        r.1@.len() == markers@.len(),
        r.2@.len() == markers@.len(),
        forall|i: int| 0 <= i < markers@.len() && #[trigger] markers@[i] is Some
            ==> r.1@[i]@.len() >= 1 && r.1@[i]@[0] == 1
                && r.0@[flat(markers@[i]->0, img.cols)] == 0,
        forall|i: int| 0 <= i < markers@.len() && #[trigger] markers@[i] is Some
            ==> r.2@[i].len() >= 1 && r.2@[i][0] == markers@[i]->0,
        forall|i: int| 0 <= i < markers@.len() && #[trigger] markers@[i] is None
            ==> r.1@[i]@.len() == 0 && r.2@[i].len() == 0,
        forall|i: int| 0 <= i < markers@.len()
            ==> sum_hist((#[trigger] r.1@[i])@) == r.2@[i].len(),
        forall|i: int| 0 <= i < markers@.len() ==> (#[trigger] r.2@[i]).no_duplicates(),
        forall|i: int, j: int|
            0 <= i < markers@.len() && 0 <= j < markers@.len() && i != j
                ==> forall|p: Pnt| (#[trigger] r.2@[i]).contains(p)
                    ==> !(#[trigger] r.2@[j]).contains(p),
        forall|i: int, k: int|
            0 <= i < markers@.len() && 0 <= k < r.2@[i].len()
                ==> in_bounds(#[trigger] r.2@[i][k], img.rows, img.cols),
        forall|i: int, k: int|
            0 <= i < markers@.len() && 1 <= k < r.2@[i].len()
                ==> (img@[flat(#[trigger] r.2@[i][k], img.cols)] as int) == i + 1,
        forall|i: int| 0 <= i < markers@.len()
            ==> (#[trigger] r.2@[i]).len() <= img.rows * img.cols,
        forall|i: int, d: int|
            0 <= i < markers@.len() && 0 <= d < r.1@[i]@.len()
                ==> (#[trigger] r.1@[i]@[d]) == dist_count(r.2@[i], r.0@, img.cols, d),
        forall|i: int, d: int|
            0 <= i < markers@.len() && d >= r.1@[i]@.len()
                ==> #[trigger] dist_count(r.2@[i], r.0@, img.cols, d) == 0,
        forall|i: int| 0 <= i < markers@.len()
            ==> (#[trigger] r.1@[i])@.len() <= img.rows * img.cols + 1,
        bfs_closed(img@, img.rows, img.cols, r.2@),
        forall|i: int, k: int|
            0 <= i < markers@.len() && 0 <= k < r.2@[i].len() && markers@[i] is Some
                ==> connected_within(
                    with_seed(cell_mask(img@, markers@, i, img.cols), img.cols, markers@[i]->0),
                    img.rows,
                    img.cols,
                    markers@[i]->0,
                    #[trigger] r.2@[i][k],
                    r.0@[flat(r.2@[i][k], img.cols)] as int,
                ),
        forall|i: int, p: Pnt, nn: int|
            0 <= i < markers@.len() && markers@[i] is Some && in_bounds(p, img.rows, img.cols)
                && 0 <= nn && #[trigger] connected_within(
                with_seed(cell_mask(img@, markers@, i, img.cols), img.cols, markers@[i]->0),
                img.rows,
                img.cols,
                markers@[i]->0,
                p,
                nn,
            ) ==> r.2@[i].contains(p) && r.0@[flat(p, img.cols)] <= nn,
        forall|i: int, k: int, nn: int|
            0 <= i < markers@.len() && markers@[i] is Some && 0 <= k < r.2@[i].len()
                && 0 <= nn < r.0@[flat(r.2@[i][k], img.cols)]
                ==> !#[trigger] connected_within(
                with_seed(cell_mask(img@, markers@, i, img.cols), img.cols, markers@[i]->0),
                img.rows,
                img.cols,
                markers@[i]->0,
                r.2@[i][k],
                nn,
            ),
{
    let rows = img.rows;
    let cols = img.cols;
    let sh: Pnt = (rows, cols);
    let n = markers.len();
    let seeded = bfs_seed(img, markers);
    let mut visited = seeded.0;
    let mut dist = seeded.1;
    let mut hists = seeded.2;
    let mut current = seeded.3;
    let ghost mut cl: Seq<Seq<Pnt>> = seeded.4@;
    let ghost mut rnd: int = 0;

    proof {
        assert(bfs_march(*img, markers@, visited, dist, hists@, cl, current@, 0)) by {
            reveal(bfs_march);
        }
    }
    let run = bfs_run(img, markers, &mut visited, &mut dist, &mut hists, current, Ghost(cl));
    proof {
        cl = run.0@;
    }
    let ghost rnd_f: int = run.1@;
    let ghost cur_f: Seq<Vec<Pnt>> = run.2@;
    proof {
        reveal(bfs_march);
        lemma_exit_settled(img@, rows, cols, visited@, cl, cur_f);
    }
    proof {
        crate::types::lemma_count_false_le_len(visited@);
        assert forall|i2: int| 0 <= i2 < markers@.len() implies
            (#[trigger] cl[i2]).len() <= rows * cols by {
            lemma_claim_le_sum(cl, i2);
        }
        assert forall|i2: int| 0 <= i2 < n && #[trigger] markers@[i2] is None implies
            cl[i2].len() == 0 by {
            assert(hists@[i2]@.len() == 0);
        }
        assert forall|i2: int| 0 <= i2 < n && #[trigger] markers@[i2] is Some implies
            cl[i2].len() >= 1 && cl[i2][0] == markers@[i2]->0 by {
            assert(hists@[i2]@.len() >= 1);
        }
        lemma_bfs_finish(img@, rows, cols, markers@, cl, dist@, visited@, rnd_f);
    }
    (dist, hists, Ghost(cl))
}

/// Mirror of a one-cell overstep at the grid border: one step outside
/// reflects back to the row or column one inside the edge.
pub open spec fn refl(i: int, n: usize) -> int {
    if i < 0 {
        if n >= 2 { 1int } else { 0int }
    } else if i >= n {
        if n >= 2 { n - 2 } else { 0int }
    } else {
        i
    }
}

/// The sample the 3 x 3 window reads at offset row `i`, column `j`, with
/// reflected borders.
pub open spec fn sample(v: Seq<u32>, rows: usize, cols: usize, i: int, j: int) -> int {
    v[refl(i, rows) * cols + refl(j, cols)] as int
}

/// Row-direction Sobel response at `p`.
pub open spec fn sobel_r(v: Seq<u32>, rows: usize, cols: usize, p: Pnt) -> int {
    -1 * sample(v, rows, cols, p.0 - 1, p.1 - 1)
    - 2 * sample(v, rows, cols, p.0 - 1, p.1 as int)
    - 1 * sample(v, rows, cols, p.0 - 1, p.1 + 1)
    + sample(v, rows, cols, p.0 + 1, p.1 - 1)
    + 2 * sample(v, rows, cols, p.0 + 1, p.1 as int)
    + sample(v, rows, cols, p.0 + 1, p.1 + 1)
}

/// Column-direction Sobel response at `p`.
pub open spec fn sobel_c(v: Seq<u32>, rows: usize, cols: usize, p: Pnt) -> int {
    -1 * sample(v, rows, cols, p.0 - 1, p.1 - 1)
    - 2 * sample(v, rows, cols, p.0 as int, p.1 - 1)
    - 1 * sample(v, rows, cols, p.0 + 1, p.1 - 1)
    + sample(v, rows, cols, p.0 - 1, p.1 + 1)
    + 2 * sample(v, rows, cols, p.0 as int, p.1 + 1)
    + sample(v, rows, cols, p.0 + 1, p.1 + 1)
}

/// Reads the reflected-border sample at offset (`dr`, `dc`) from `p`.
#[verifier::loop_isolation(false)]
fn sample_at(img: &Matrix<u32>, p: Pnt, dr: i8, dc: i8) -> (r: u32)
    requires
        img.wf(),
        in_bounds(p, img.rows, img.cols),
        -1 <= dr <= 1,
        -1 <= dc <= 1,
    ensures
        r as int == sample(img@, img.rows, img.cols, p.0 + dr, p.1 + dc),
{
    let rows = img.rows;
    let cols = img.cols;
    let ri: usize = if dr < 0 {
        if p.0 == 0 {
            if rows >= 2 { 1 } else { 0 }
        } else {
            p.0 - 1
        }
    } else if dr > 0 {
        if p.0 + 1 >= rows {
            if rows >= 2 { rows - 2 } else { 0 }
        } else {
            p.0 + 1
        }
    } else {
        p.0
    };
    let ci: usize = if dc < 0 {
        if p.1 == 0 {
            if cols >= 2 { 1 } else { 0 }
        } else {
            p.1 - 1
        }
    } else if dc > 0 {
        if p.1 + 1 >= cols {
            if cols >= 2 { cols - 2 } else { 0 }
        } else {
            p.1 + 1
        }
    } else {
        p.1
    };
    proof {
        assert(ri as int == refl(p.0 + dr, rows));
        assert(ci as int == refl(p.1 + dc, cols));
        lemma_flat_in_range((ri, ci), rows, cols);
    }
    img.get((ri, ci))
}

/// Keeps a pixel's label where the squared Sobel gradient magnitude of the
/// label image is nonzero and blanks it elsewhere: the edge (perimeter)
/// image of a label grid.
#[verifier::loop_isolation(false)]
#[verifier::rlimit(100)]
pub fn perimeter(img: &Matrix<u32>) -> (out: Matrix<u32>)
    requires
        img.wf(),
    ensures
        out.wf(),
        out.rows == img.rows,
        out.cols == img.cols,
        forall|p: Pnt| in_bounds(p, img.rows, img.cols)
            ==> out@[flat(p, img.cols)] == (if sobel_r(img@, img.rows, img.cols, p) == 0
                && sobel_c(img@, img.rows, img.cols, p) == 0 {
                0u32
            } else {
                img@[flat(p, img.cols)]
            }),
{
    let rows = img.rows;
    let cols = img.cols;
    let mut out = Matrix::<u32>::filled(rows, cols, 0);
    let mut r: usize = 0;
    while r < rows
        invariant
            r <= rows,
            out.wf(),
            out.rows == rows,
            out.cols == cols,
            forall|p: Pnt| in_bounds(p, rows, cols) && p.0 < r
                ==> out@[flat(p, cols)] == (if sobel_r(img@, rows, cols, p) == 0
                    && sobel_c(img@, rows, cols, p) == 0 {
                    0u32
                } else {
                    img@[flat(p, cols)]
                }),
            forall|p: Pnt| in_bounds(p, rows, cols) && p.0 >= r
                ==> out@[flat(p, cols)] == 0,
        decreases rows - r,
    {
        let mut c: usize = 0;
        while c < cols
            invariant
                r < rows,
                c <= cols,
                out.wf(),
                out.rows == rows,
                out.cols == cols,
                forall|p: Pnt| in_bounds(p, rows, cols) && (p.0 < r || (p.0 == r && p.1 < c))
                    ==> out@[flat(p, cols)] == (if sobel_r(img@, rows, cols, p) == 0
                        && sobel_c(img@, rows, cols, p) == 0 {
                        0u32
                    } else {
                        img@[flat(p, cols)]
                    }),
                forall|p: Pnt| in_bounds(p, rows, cols) && (p.0 > r || (p.0 == r && p.1 >= c))
                    ==> out@[flat(p, cols)] == 0,
            decreases cols - c,
        {
            let p: Pnt = (r, c);
            proof {
                lemma_flat_in_range(p, rows, cols);
            }
            let nw = sample_at(img, p, -1, -1) as i64;
            let nn = sample_at(img, p, -1, 0) as i64;
            let ne = sample_at(img, p, -1, 1) as i64;
            let ww = sample_at(img, p, 0, -1) as i64;
            let ee = sample_at(img, p, 0, 1) as i64;
            let sw = sample_at(img, p, 1, -1) as i64;
            let ss = sample_at(img, p, 1, 0) as i64;
            let se = sample_at(img, p, 1, 1) as i64;
            let gr: i64 = -nw - 2 * nn - ne + sw + 2 * ss + se;
            let gc: i64 = -nw - 2 * ww - sw + ne + 2 * ee + se;
            if gr != 0 || gc != 0 {
                out.set(p, img.get(p));
            }
            c += 1;
        }
        r += 1;
    }
    out
}

} // verus!
