use microcount::types::Matrix;
use microcount::binary::{branch_length, count_branches, perimeter, skel};

fn mask_from(rows: usize, cols: usize, fg: &[(usize, usize)]) -> Matrix<bool> {
    let mut m = Matrix::<bool>::filled(rows, cols, false);
    for &p in fg {
        m.set(p, true);
    }
    m
}

#[test]
fn thinning_fixes_a_one_pixel_line() {
    // A 1-pixel-wide line is already minimal: every pixel is
    // removal-ineligible, so thinning returns it unchanged.
    let line: Vec<(usize, usize)> = (1..9).map(|c| (2usize, c)).collect();
    let m = mask_from(5, 10, &line);
    let out = skel(&m);
    for r in 0..5 {
        for c in 0..10 {
            assert_eq!(out.get((r, c)), m.get((r, c)));
        }
    }
}

#[test]
fn thinning_erodes_a_block_strictly() {
    // A solid block is not minimal; the skeleton must be a strict subset.
    let mut fg = Vec::new();
    for r in 1..6 {
        for c in 1..6 {
            fg.push((r, c));
        }
    }
    let m = mask_from(7, 7, &fg);
    let out = skel(&m);
    let mut kept = 0;
    for r in 0..7 {
        for c in 0..7 {
            if out.get((r, c)) {
                assert!(m.get((r, c)), "skeleton must be a subset of the mask");
                kept += 1;
            }
        }
    }
    assert!(kept < 25, "a solid block must lose pixels");
}

#[test]
fn junctions_need_three_transitions() {
    // A plus shape: the centre has four ring transitions, the arm tips one.
    let m = mask_from(5, 5, &[(2, 2), (1, 2), (3, 2), (2, 1), (2, 3)]);
    let j = count_branches(&m);
    assert!(j.get((2, 2)));
    assert!(!j.get((1, 2)));
    assert!(!j.get((2, 1)));
    // A straight line has no junction.
    let line = mask_from(3, 5, &[(1, 1), (1, 2), (1, 3)]);
    let jl = count_branches(&line);
    for r in 0..3 {
        for c in 0..5 {
            assert!(!jl.get((r, c)));
        }
    }
}

#[test]
fn perimeter_keeps_only_gradient_pixels() {
    // A flat grid has zero gradient everywhere: all blanked.
    let flat = Matrix::<u32>::filled(4, 4, 3);
    let out = perimeter(&flat);
    for r in 0..4 {
        for c in 0..4 {
            assert_eq!(out.get((r, c)), 0);
        }
    }
    // A labeled block in a zero background: its border pixels sit on a
    // gradient and keep their label, interior pixels and far background
    // are blanked.
    let mut lbl = Matrix::<u32>::filled(6, 6, 0);
    for r in 1..5 {
        for c in 1..5 {
            lbl.set((r, c), 5);
        }
    }
    let edge = perimeter(&lbl);
    assert_eq!(edge.get((1, 1)), 5, "block corner lies on the edge");
    assert_eq!(edge.get((2, 2)), 0, "block interior has no gradient");
    assert_eq!(edge.get((0, 0)), 0, "far background stays blank");
}

#[test]
fn histogram_sums_match_region_sizes() {
    // Skeleton of cell 1: an L of five pixels seeded at the corner.
    let mut lbl = Matrix::<u32>::filled(4, 4, 0);
    for &p in &[(0usize, 0usize), (0, 1), (0, 2), (1, 2), (2, 2)] {
        lbl.set(p, 1);
    }
    let seeds = vec![Some((0usize, 0usize))];
    let (dist, hists, _) = branch_length(&lbl, &seeds);
    assert_eq!(hists.len(), 1);
    assert_eq!(hists[0][0], 1, "the seed is the zero-distance bucket");
    let sum: usize = hists[0].iter().sum();
    assert_eq!(sum, 5, "buckets must sum to the region size");
    assert_eq!(dist.get((0, 0)), 0, "the seed sits at distance zero");
    assert_eq!(dist.get((0, 1)), 1);
    assert_eq!(dist.get((1, 2)), 2);
    assert_eq!(dist.get((2, 2)), 3);
}

#[test]
fn bfs_does_not_cross_labels() {
    // Two touching runs with different labels: each seed claims only its
    // own label's pixels.
    let mut lbl = Matrix::<u32>::filled(1, 6, 0);
    for c in 0..3 {
        lbl.set((0, c), 1);
    }
    for c in 3..6 {
        lbl.set((0, c), 2);
    }
    let seeds = vec![Some((0usize, 0usize)), Some((0usize, 5usize))];
    let (_, hists, _) = branch_length(&lbl, &seeds);
    let s0: usize = hists[0].iter().sum();
    let s1: usize = hists[1].iter().sum();
    assert_eq!(s0, 3);
    assert_eq!(s1, 3);
}

#[test]
fn unseeded_cell_takes_no_part() {
    let mut lbl = Matrix::<u32>::filled(1, 3, 0);
    lbl.set((0, 0), 1);
    let seeds = vec![Some((0usize, 0usize)), None];
    let (_, hists, _) = branch_length(&lbl, &seeds);
    assert_eq!(hists.len(), 2);
    assert!(hists[1].is_empty());
}

#[test]
fn geodesic_distance_follows_the_cell() {
    // A U shape: two arms three empty columns apart, joined at the
    // bottom. The far arm's top is four steps away as the crow flies
    // but six along the cell, and the distance grid must say six.
    let mut lbl = Matrix::<u32>::filled(3, 5, 0);
    for r in 0..3 {
        lbl.set((r, 0), 1);
        lbl.set((r, 4), 1);
    }
    for c in 1..4 {
        lbl.set((2, c), 1);
    }
    let seeds = vec![Some((0usize, 0usize))];
    let (dist, hists, _) = branch_length(&lbl, &seeds);
    assert_eq!(dist.get((0, 4)), 6, "the walk must round the bend");
    assert_eq!(dist.get((2, 2)), 3, "the empty middle blocks the diagonal");
    let sum: usize = hists[0].iter().sum();
    assert_eq!(sum, 9);
}
