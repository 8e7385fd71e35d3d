//! Shared grid primitives: bounded 8-neighbour stepping in a fixed clockwise
//! order, squared Euclidean distance, and nearest-point search.

use vstd::prelude::*;
use crate::types::{adj, in_bounds, Pnt};

verus! {

/// Offset of the `k`-th 8-neighbour. The order is a hard contract: clockwise
/// starting north, so that direction indices line up with the ring-transition
/// logic of thinning and junction detection.
pub open spec fn dir_delta(k: int) -> (int, int) {
    if k == 0 {
        (-1, 0)
    } else if k == 1 {
        (-1, 1)
    } else if k == 2 {
        (0, 1)
    } else if k == 3 {
        (1, 1)
    } else if k == 4 {
        (1, 0)
    } else if k == 5 {
        (1, -1)
    } else if k == 6 {
        (0, -1)
    } else {
        (-1, -1)
    }
}

/// Does `p` have an in-bounds neighbour in direction `k` on a `sh` grid?
pub open spec fn has_neighbour(p: Pnt, k: int, sh: Pnt) -> bool {
    let d = dir_delta(k);
    &&& 0 <= p.0 + d.0 < sh.0
    &&& 0 <= p.1 + d.1 < sh.1
}

/// The neighbour of `p` in direction `k` (meaningful when it exists).
pub open spec fn neighbour_pt(p: Pnt, k: int) -> Pnt {
    let d = dir_delta(k);
    ((p.0 + d.0) as usize, (p.1 + d.1) as usize)
}

/// The in-bounds neighbour of `p` in direction `k` of the fixed clockwise
/// ring, or `None` when that step leaves the `sh.0` × `sh.1` grid.
pub fn neighbour_of(p: Pnt, k: usize, sh: Pnt) -> (r: Option<Pnt>)
    requires
        in_bounds(p, sh.0, sh.1),
        k < 8,
    ensures
        has_neighbour(p, k as int, sh) ==> r == Some(neighbour_pt(p, k as int)),
        !has_neighbour(p, k as int, sh) ==> r is None,
        r matches Some(q) ==> in_bounds(q, sh.0, sh.1) && adj(p, q),
{
    if k == 0 {
        if p.0 > 0 { Some((p.0 - 1, p.1)) } else { None }
    } else if k == 1 {
        if p.0 > 0 && p.1 + 1 < sh.1 { Some((p.0 - 1, p.1 + 1)) } else { None }
    } else if k == 2 {
        if p.1 + 1 < sh.1 { Some((p.0, p.1 + 1)) } else { None }
    } else if k == 3 {
        if p.0 + 1 < sh.0 && p.1 + 1 < sh.1 { Some((p.0 + 1, p.1 + 1)) } else { None }
    } else if k == 4 {
        if p.0 + 1 < sh.0 { Some((p.0 + 1, p.1)) } else { None }
    } else if k == 5 {
        if p.0 + 1 < sh.0 && p.1 > 0 { Some((p.0 + 1, p.1 - 1)) } else { None }
    } else if k == 6 {
        if p.1 > 0 { Some((p.0, p.1 - 1)) } else { None }
    } else {
        if p.0 > 0 && p.1 > 0 { Some((p.0 - 1, p.1 - 1)) } else { None }
    }
}

/// Squared Euclidean distance between two grid coordinates.
pub open spec fn sq_dist(a: Pnt, b: Pnt) -> int {
    (a.0 - b.0) * (a.0 - b.0) + (a.1 - b.1) * (a.1 - b.1)
}

/// Squared Euclidean distance, exact and overflow-safe for coordinates whose
/// squared separation fits in a `usize`.
pub fn euc_sq(a: Pnt, b: Pnt) -> (r: usize)
    requires
        sq_dist(a, b) <= usize::MAX,
    ensures
        r == sq_dist(a, b),
{
    let dr: usize = if a.0 >= b.0 { a.0 - b.0 } else { b.0 - a.0 };
    let dc: usize = if a.1 >= b.1 { a.1 - b.1 } else { b.1 - a.1 };
    proof {
        assert(dr * dr + dc * dc == sq_dist(a, b)) by (nonlinear_arith)
            requires
                dr == if a.0 >= b.0 { a.0 - b.0 } else { b.0 - a.0 },
                dc == if a.1 >= b.1 { a.1 - b.1 } else { b.1 - a.1 },
        ;
    }
    dr * dr + dc * dc
}

/// The first point of `pts` at minimal squared distance from `pt`, or `None`
/// when `pts` is empty. Ties are broken in favour of the earliest point.
pub fn nearest(pt: Pnt, pts: &Vec<Pnt>) -> (r: Option<Pnt>)
    requires
        forall|j: int| 0 <= j < pts@.len() ==> sq_dist(#[trigger] pts@[j], pt) <= usize::MAX,
    ensures
        r is None <==> pts@.len() == 0,
        r matches Some(m) ==> exists|i: int|
            0 <= i < pts@.len() && pts@[i] == m
            && (forall|j: int| 0 <= j < pts@.len() ==> sq_dist(#[trigger] pts@[j], pt) >= sq_dist(m, pt))
            && (forall|j: int| 0 <= j < i ==> sq_dist(#[trigger] pts@[j], pt) > sq_dist(m, pt)),
{
    if pts.len() == 0 {
        return None;
    }
    let mut best: Pnt = pts[0];
    let mut best_d: usize = euc_sq(best, pt);
    let ghost mut best_i: int = 0;
    let mut t: usize = 1;
    while t < pts.len()
        invariant
            1 <= t <= pts@.len(),
            0 <= best_i < t,
            pts@[best_i] == best,
            best_d == sq_dist(best, pt),
            forall|j: int| 0 <= j < pts@.len() ==> sq_dist(#[trigger] pts@[j], pt) <= usize::MAX,
            forall|j: int| 0 <= j < t ==> sq_dist(#[trigger] pts@[j], pt) >= best_d,
            forall|j: int| 0 <= j < best_i ==> sq_dist(#[trigger] pts@[j], pt) > best_d,
        decreases pts@.len() - t,
    {
        let cand = pts[t];
        let d = euc_sq(cand, pt);
        if d < best_d {
            best = cand;
            best_d = d;
            proof {
                best_i = t as int;
            }
        }
        t += 1;
    }
    Some(best)
}


/// Number of occurrences of `x` in `s`.
pub open spec fn cnt(s: Seq<usize>, x: usize) -> nat
    decreases s.len(),
{
    if s.len() == 0 {
        0
    } else {
        cnt(s.drop_last(), x) + if s.last() == x {
            1nat
        } else {
            0nat
        }
    }
}

/// Concatenation adds occurrence counts.
proof fn lemma_cnt_concat(a: Seq<usize>, b: Seq<usize>, x: usize)
    ensures
        cnt(a + b, x) == cnt(a, x) + cnt(b, x),
    decreases b.len(),
{
    if b.len() == 0 {
        assert(a + b =~= a);
    } else {
        lemma_cnt_concat(a, b.drop_last(), x);
        assert((a + b).drop_last() =~= a + b.drop_last());
        assert((a + b).last() == b.last());
    }
}

/// A sequence avoiding `x` counts zero of it; one made of `x` alone counts
/// its length.
proof fn lemma_cnt_uniform(s: Seq<usize>, x: usize)
    ensures
        (forall|i: int| 0 <= i < s.len() ==> s[i] != x) ==> cnt(s, x) == 0,
        (forall|i: int| 0 <= i < s.len() ==> s[i] == x) ==> cnt(s, x) == s.len(),
    decreases s.len(),
{
    if s.len() > 0 {
        lemma_cnt_uniform(s.drop_last(), x);
    }
}

/// An element at any position is counted at least once.
proof fn lemma_cnt_index_pos(s: Seq<usize>, i: int)
    requires
        0 <= i < s.len(),
    ensures
        cnt(s, s[i]) >= 1,
    decreases s.len(),
{
    if i < s.len() - 1 {
        lemma_cnt_index_pos(s.drop_last(), i);
    }
}

/// A positive count names an occurrence.
proof fn lemma_cnt_pos_index(s: Seq<usize>, x: usize)
    requires
        cnt(s, x) > 0,
    ensures
        exists|i: int| 0 <= i < s.len() && s[i] == x,
    decreases s.len(),
{
    if s.last() == x {
        assert(s[s.len() - 1] == x);
    } else {
        lemma_cnt_pos_index(s.drop_last(), x);
        let i = choose|i: int| 0 <= i < s.drop_last().len() && s.drop_last()[i] == x;
        assert(s[i] == x);
    }
}

/// In an ascending sequence whose run `[lo, hi)` carries exactly the value
/// `x`, with everything else different, `x` is counted exactly `hi - lo`
/// times.
proof fn lemma_cnt_run(s: Seq<usize>, x: usize, lo: int, hi: int)
    requires
        0 <= lo <= hi <= s.len(),
        forall|i: int| 0 <= i < lo ==> s[i] != x,
        forall|i: int| lo <= i < hi ==> s[i] == x,
        forall|i: int| hi <= i < s.len() ==> s[i] != x,
    ensures
        cnt(s, x) == hi - lo,
{
    let a = s.subrange(0, lo);
    let b = s.subrange(lo, hi);
    let c = s.subrange(hi, s.len() as int);
    assert(s =~= (a + b) + c);
    lemma_cnt_concat(a + b, c, x);
    lemma_cnt_concat(a, b, x);
    lemma_cnt_uniform(a, x);
    lemma_cnt_uniform(b, x);
    lemma_cnt_uniform(c, x);
}

/// Relies on `itertools::Itertools::sorted`: the same elements, in
/// ascending order.
#[verifier::external_body]
fn sorted_usize(v: &Vec<usize>) -> (r: Vec<usize>)
    ensures
        r@.len() == v@.len(),
        forall|i: int, j: int| 0 <= i <= j < r@.len() ==> r@[i] <= r@[j],
        forall|x: usize| #[trigger] cnt(r@, x) == cnt(v@, x),
{
    itertools::Itertools::sorted(v.iter().copied()).collect()
}

/// Number of members of `pts` at squared distance `x` from `origin`.
pub open spec fn dcount(pts: Seq<Pnt>, origin: Pnt, x: usize) -> nat
    decreases pts.len(),
{
    if pts.len() == 0 {
        0
    } else {
        dcount(pts.drop_last(), origin, x) + if sq_dist(pts.last(), origin) == x {
            1nat
        } else {
            0nat
        }
    }
}

/// Groups a region's members by their squared distance from the seed,
/// discarding the seed's own ring of radius zero: one `(squared radius,
/// member count)` pair per occupied ring, radii strictly ascending. This is
/// the exact part of the Scholl analysis; the log-density regression over
/// these rings is left to the caller.
#[verifier::loop_isolation(false)]
#[verifier::rlimit(100)]
pub fn scholl_rings(origin: Pnt, pts: &Vec<Pnt>) -> (rings: Vec<(usize, usize)>)
    requires
        forall|t: int| 0 <= t < pts@.len()
            ==> sq_dist(#[trigger] pts@[t], origin) <= usize::MAX,
    ensures
        forall|i: int| 0 <= i < rings@.len() ==> (#[trigger] rings@[i]).0 > 0,
        forall|i: int, j: int|
            0 <= i < j < rings@.len()
                ==> (#[trigger] rings@[i]).0 < (#[trigger] rings@[j]).0,
        forall|i: int| 0 <= i < rings@.len()
            ==> (#[trigger] rings@[i]).1 == dcount(pts@, origin, rings@[i].0)
                && rings@[i].1 >= 1,
        forall|x: usize|
            x != 0 && #[trigger] dcount(pts@, origin, x) > 0
                ==> exists|i: int| 0 <= i < rings@.len() && (#[trigger] rings@[i]).0 == x,
{
    let n = pts.len();
    let mut ds: Vec<usize> = Vec::new();
    let mut t: usize = 0;
    while t < n
        invariant
            t <= n,
            forall|t2: int| 0 <= t2 < pts@.len()
                ==> sq_dist(#[trigger] pts@[t2], origin) <= usize::MAX,
            forall|u: int| 0 <= u < ds@.len() ==> (#[trigger] ds@[u]) != 0,
            forall|x: usize| x != 0
                ==> #[trigger] cnt(ds@, x) == dcount(pts@.take(t as int), origin, x),
        decreases n - t,
    {
        let d = euc_sq(pts[t], origin);
        let ghost ds_prev = ds@;
        if d != 0 {
            ds.push(d);
        }
        proof {
            assert(pts@.take(t as int + 1).drop_last() =~= pts@.take(t as int));
            assert(pts@.take(t as int + 1).last() == pts@[t as int]);
            if d != 0 {
                assert(ds@.drop_last() =~= ds_prev);
                assert forall|x: usize| x != 0 implies #[trigger] cnt(ds@, x)
                    == dcount(pts@.take(t as int + 1), origin, x) by {
                    assert(cnt(ds@, x) == cnt(ds_prev, x) + if d == x { 1nat } else { 0nat });
                }
            }
        }
        t += 1;
    }
    proof {
        assert(pts@.take(n as int) =~= pts@);
    }

    let sorted = sorted_usize(&ds);
    proof {
        assert forall|u: int| 0 <= u < sorted@.len() implies (#[trigger] sorted@[u]) != 0 by {
            lemma_cnt_index_pos(sorted@, u);
            if sorted@[u] == 0 {
                lemma_cnt_uniform(ds@, 0);
                assert(cnt(ds@, 0usize) == 0);
            }
        }
    }

    let m = sorted.len();
    let mut rings: Vec<(usize, usize)> = Vec::new();
    let mut have = false;
    let mut key: usize = 0;
    let mut count: usize = 0;
    let ghost mut start: int = 0;
    let mut u: usize = 0;
    while u < m
        invariant
            u <= m,
            m == sorted@.len(),
            forall|i: int, j: int| 0 <= i <= j < sorted@.len() ==> sorted@[i] <= sorted@[j],
            forall|v2: int| 0 <= v2 < sorted@.len() ==> (#[trigger] sorted@[v2]) != 0,
            forall|x: usize| #[trigger] cnt(sorted@, x) == cnt(ds@, x),
            !have ==> u == 0 && rings@.len() == 0,
            have ==> 0 <= start < u as int,
            have ==> key == sorted@[start] && key != 0,
            have ==> count == u - start,
            have ==> forall|w: int| start <= w < u ==> sorted@[w] == key,
            have ==> forall|w: int| 0 <= w < start ==> sorted@[w] != key,
            forall|i: int| 0 <= i < rings@.len() ==> (#[trigger] rings@[i]).0 > 0,
            forall|i: int, j: int|
                0 <= i < j < rings@.len()
                    ==> (#[trigger] rings@[i]).0 < (#[trigger] rings@[j]).0,
            have ==> forall|i: int| 0 <= i < rings@.len() ==> (#[trigger] rings@[i]).0 < key,
            forall|i: int| 0 <= i < rings@.len()
                ==> (#[trigger] rings@[i]).1 == cnt(sorted@, rings@[i].0) && rings@[i].1 >= 1,
            forall|w: int| 0 <= w < u ==> (exists|i: int|
                0 <= i < rings@.len() && (#[trigger] rings@[i]).0 == sorted@[w])
                || (have && sorted@[w] == key),
        decreases m - u,
    {
        let x = sorted[u];
        if have && x == key {
            count += 1;
        } else {
            if have {
                proof {
                    assert forall|w: int| u as int <= w < sorted@.len()
                        implies sorted@[w] != key by {
                        assert(sorted@[u as int] <= sorted@[w]);
                        assert(sorted@[start] <= sorted@[u as int]);
                        assert(sorted@[u as int] != key);
                    }
                    lemma_cnt_run(sorted@, key, start, u as int);
                }
                let ghost pre_rings = rings@;
                rings.push((key, count));
                proof {
                    assert(rings@[rings@.len() - 1].0 == key);
                    assert forall|w: int| #![trigger sorted@[w]] 0 <= w < u implies (exists|i: int|
                        0 <= i < rings@.len() && (#[trigger] rings@[i]).0 == sorted@[w]) by {
                        if sorted@[w] == key {
                            assert(rings@[rings@.len() - 1].0 == sorted@[w]);
                        } else {
                            let i0 = choose|i0: int|
                                0 <= i0 < pre_rings.len()
                                    && (#[trigger] pre_rings[i0]).0 == sorted@[w];
                            assert(rings@[i0].0 == sorted@[w]);
                        }
                    }
                }
            }
            proof {
                if have {
                    assert(sorted@[start] <= x);
                }
                start = u as int;
            }
            key = x;
            count = 1;
            have = true;
        }
        u += 1;
    }
    if have {
        proof {
            lemma_cnt_run(sorted@, key, start, m as int);
        }
        let ghost pre_rings = rings@;
        rings.push((key, count));
        proof {
            assert(rings@[rings@.len() - 1].0 == key);
            assert forall|w: int| #![trigger sorted@[w]] 0 <= w < m implies (exists|i: int|
                0 <= i < rings@.len() && (#[trigger] rings@[i]).0 == sorted@[w]) by {
                if sorted@[w] == key {
                    assert(rings@[rings@.len() - 1].0 == sorted@[w]);
                } else {
                    let i0 = choose|i0: int|
                        0 <= i0 < pre_rings.len() && (#[trigger] pre_rings[i0]).0 == sorted@[w];
                    assert(rings@[i0].0 == sorted@[w]);
                }
            }
        }
    }
    proof {
        assert forall|x: usize|
            x != 0 && #[trigger] dcount(pts@, origin, x) > 0 implies exists|i: int|
                0 <= i < rings@.len() && (#[trigger] rings@[i]).0 == x by {
            assert(cnt(ds@, x) == dcount(pts@, origin, x));
            assert(cnt(sorted@, x) > 0);
            lemma_cnt_pos_index(sorted@, x);
            let w = choose|w: int| 0 <= w < sorted@.len() && sorted@[w] == x;
        }
    }
    rings
}

} // verus!
