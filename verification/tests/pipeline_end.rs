use microcount::types::Matrix;
use microcount::binary::{branch_length, conncomps, skel};
use microcount::helpers::nearest;
use microcount::pipeline::{analyze_masks, mask_label};
use microcount::regions::{centroids, floodfill, regions2label};

fn mask_from(rows: usize, cols: usize, fg: &[(usize, usize)]) -> Matrix<bool> {
    let mut m = Matrix::<bool>::filled(rows, cols, false);
    for &p in fg {
        m.set(p, true);
    }
    m
}

#[test]
fn all_background_yields_zero_cells() {
    let empty = Matrix::<bool>::filled(8, 8, false);
    let r = analyze_masks(&empty, &empty, &empty, 100);
    assert_eq!(r.cell_count, 0);
    assert!(r.markers.is_empty());
    assert!(r.segmented_regions.is_empty());
    assert_eq!(r.cd68_area, 0);
    assert!(r.overlaps.is_empty());
    for row in 0..8 {
        for col in 0..8 {
            assert!(!r.soma_mask.get((row, col)));
            assert!(!r.skeleton.get((row, col)));
            assert_eq!(r.segmented.get((row, col)), 0);
        }
    }
}

#[test]
fn opening_removes_speckle_and_keeps_the_soma() {
    // A 13x13 soma survives five erosion/dilation rounds; a lone speck
    // does not. If the opening handed its input back unchanged, the speck
    // would survive and the cell count would be two.
    let mut fg = Vec::new();
    for r in 3..16 {
        for c in 3..16 {
            fg.push((r, c));
        }
    }
    fg.push((18, 18));
    let soma = mask_from(20, 20, &fg);
    let empty = Matrix::<bool>::filled(20, 20, false);
    let r = analyze_masks(&empty, &soma, &empty, 50);
    assert_eq!(r.cell_count, 1);
    assert!(!r.soma_mask.get((18, 18)), "the speck must be opened away");
    assert!(r.soma_mask.get((9, 9)), "the soma centre must survive");
}

#[test]
fn square_soma_with_straight_branch() {
    // A 5x5 soma with a 20-pixel branch line: one cell, and the geodesic
    // histogram of the grown region reaches about 20 hops along the line.
    let mut soma_fg = Vec::new();
    for r in 10..15 {
        for c in 2..7 {
            soma_fg.push((r, c));
        }
    }
    let soma = mask_from(30, 30, &soma_fg);
    let mut branch_fg = soma_fg.clone();
    for c in 7..27 {
        branch_fg.push((12, c));
    }
    let branches = mask_from(30, 30, &branch_fg);

    let soma_regions = conncomps(&soma);
    assert_eq!(soma_regions.len(), 1, "one soma, one cell");
    let marker = centroids(&soma_regions[0]);
    assert_eq!(marker, (12, 4));

    let grown = floodfill(&branches, &vec![marker]);
    assert_eq!(grown.len(), 1);
    assert_eq!(grown[0].len(), branch_fg.len(), "the cell claims its whole net");

    let skeleton = skel(&branches);
    let segmented = regions2label(&grown, (30, 30));
    let labelled = mask_label(&skeleton, &segmented);
    let seed = nearest(marker, &grown[0]).unwrap();
    // Restrict the seed to a skeleton pixel of the cell.
    let mut skel_members = Vec::new();
    for &p in &grown[0] {
        if labelled.get(p) == 1 {
            skel_members.push(p);
        }
    }
    assert!(!skel_members.is_empty(), "the skeleton keeps the branch");
    let seed = nearest(seed, &skel_members).unwrap();
    let (_, hists, _) = branch_length(&labelled, &vec![Some(seed)]);
    assert_eq!(hists[0][0], 1);
    let size: usize = hists[0].iter().sum();
    assert_eq!(size, skel_members.len(), "buckets sum to the skeleton region");
    let max_d = hists[0].len() - 1;
    assert!(
        max_d >= 18 && max_d <= 26,
        "a 20-pixel straight branch spans about 20 hops, got {}",
        max_d
    );
}

#[test]
fn two_separated_cells_and_empty_activation() {
    // Two 13x13 somas with disjoint branch nets: two cells, no overlap at
    // all when the activation mask is empty.
    let mut soma_fg = Vec::new();
    for r in 2..15 {
        for c in 2..15 {
            soma_fg.push((r, c));
        }
    }
    for r in 2..15 {
        for c in 25..38 {
            soma_fg.push((r, c));
        }
    }
    let soma = mask_from(40, 40, &soma_fg);
    let mut branch_fg = Vec::new();
    for r in 15..25 {
        branch_fg.push((r, 8));
        branch_fg.push((r, 31));
    }
    let branches = mask_from(40, 40, &branch_fg);
    let empty = Matrix::<bool>::filled(40, 40, false);
    let r = analyze_masks(&empty, &soma, &branches, 50);
    assert_eq!(r.cell_count, 2);
    // No branch pixel of one cell may sit in the other's region.
    for &p in &r.segmented_regions[0] {
        assert!(p.1 < 20, "cell one stays on the left, got {:?}", p);
    }
    for &p in &r.segmented_regions[1] {
        assert!(p.1 >= 20, "cell two stays on the right, got {:?}", p);
    }
    assert_eq!(r.cd68_area, 0);
    for &(ov, _) in &r.overlaps {
        assert_eq!(ov, 0, "no activation, no overlap");
    }
}

#[test]
fn activation_blobs_above_the_cap_are_dropped() {
    // One 1-pixel blob and one 6-pixel blob; a cap of 4 keeps only the
    // small one.
    let mut act_fg = vec![(0usize, 0usize)];
    for c in 2..8 {
        act_fg.push((3, c));
    }
    let act = mask_from(6, 8, &act_fg);
    let empty = Matrix::<bool>::filled(6, 8, false);
    let r = analyze_masks(&act, &empty, &empty, 4);
    assert_eq!(r.cd68_regions.len(), 1);
    assert_eq!(r.cd68_area, 1);
    assert_eq!(r.cd68_label.get((0, 0)), 1);
    assert_eq!(r.cd68_label.get((3, 3)), 0);
}

#[test]
fn single_cell_full_pipeline() {
    // One 13x13 soma that survives the opening, with a straight branch
    // line running from its centroid: one cell, a seeded skeleton, and a
    // geodesic histogram that spans roughly the line's length.
    let mut soma_fg = Vec::new();
    for r in 5..18 {
        for c in 5..18 {
            soma_fg.push((r, c));
        }
    }
    let soma = mask_from(40, 40, &soma_fg);
    let mut branch_fg = Vec::new();
    for c in 11..36 {
        branch_fg.push((11, c));
    }
    let branches = mask_from(40, 40, &branch_fg);
    let empty = Matrix::<bool>::filled(40, 40, false);
    let r = analyze_masks(&empty, &soma, &branches, 50);
    assert_eq!(r.cell_count, 1);
    assert_eq!(r.markers[0], (11, 11));
    assert!(r.skelly_markers[0].is_some(), "the cell has a skeleton seed");
    let (w, s) = r.length_sums[0].expect("a seeded cell has sums");
    let hist = &r.histograms[0];
    assert_eq!(hist[0], 1);
    assert_eq!(s, hist.iter().sum::<usize>());
    assert_eq!(w, hist.iter().enumerate().map(|(d, &n)| d as u64 * n as u64).sum::<u64>());
    let max_d = hist.len() - 1;
    assert!(
        max_d >= 20 && max_d <= 28,
        "a 25-pixel line spans about 24 hops, got {}",
        max_d
    );
    assert_eq!(r.overlaps[0].1, r.segmented_regions[0].len());
    assert_eq!(r.overlaps[0].0, 0);
}
