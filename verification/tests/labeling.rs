use microcount::types::Matrix;
use microcount::binary::conncomps;
use microcount::regions::{label2regions, regions2label};

fn mask_from(rows: usize, cols: usize, fg: &[(usize, usize)]) -> Matrix<bool> {
    let mut m = Matrix::<bool>::filled(rows, cols, false);
    for &p in fg {
        m.set(p, true);
    }
    m
}

#[test]
fn diagonal_pixels_are_one_component() {
    let m = mask_from(3, 3, &[(0, 0), (1, 1), (2, 2)]);
    let regions = conncomps(&m);
    assert_eq!(regions.len(), 1);
    assert_eq!(regions[0].len(), 3);
    assert_eq!(regions[0][0], (0, 0));
}

#[test]
fn separated_blobs_are_two_components() {
    let m = mask_from(3, 5, &[(0, 0), (0, 1), (2, 4), (1, 4)]);
    let mut regions = conncomps(&m);
    assert_eq!(regions.len(), 2);
    regions[0].sort();
    regions[1].sort();
    assert_eq!(regions[0], vec![(0, 0), (0, 1)]);
    assert_eq!(regions[1], vec![(1, 4), (2, 4)]);
}

#[test]
fn every_foreground_pixel_in_exactly_one_region() {
    let m = mask_from(
        4,
        4,
        &[(0, 0), (0, 1), (1, 1), (3, 0), (3, 3), (2, 3)],
    );
    let regions = conncomps(&m);
    let mut seen = std::collections::HashSet::new();
    let mut total = 0;
    for region in &regions {
        for &p in region {
            assert!(m.get(p), "member must be foreground");
            assert!(seen.insert(p), "member must appear once");
            total += 1;
        }
    }
    assert_eq!(total, 6);
}

#[test]
fn empty_grid_has_no_components() {
    let m = mask_from(4, 4, &[]);
    assert!(conncomps(&m).is_empty());
}

#[test]
fn label_region_round_trip_is_identity() {
    let mut lbl = Matrix::<u32>::filled(3, 4, 0);
    lbl.set((0, 0), 1);
    lbl.set((0, 1), 1);
    lbl.set((2, 3), 2);
    lbl.set((1, 2), 3);
    let regions = label2regions(&lbl);
    assert_eq!(regions.len(), 3);
    assert_eq!(regions[0], vec![(0, 0), (0, 1)]);
    assert_eq!(regions[1], vec![(2, 3)]);
    assert_eq!(regions[2], vec![(1, 2)]);
    let back = regions2label(&regions, (3, 4));
    for r in 0..3 {
        for c in 0..4 {
            assert_eq!(back.get((r, c)), lbl.get((r, c)));
        }
    }
}

#[test]
fn label2regions_keeps_empty_labels() {
    // Label 2 is absent: its region must exist and be empty, because the
    // maximum label is the authoritative region count.
    let mut lbl = Matrix::<u32>::filled(2, 2, 0);
    lbl.set((0, 0), 1);
    lbl.set((1, 1), 3);
    let regions = label2regions(&lbl);
    assert_eq!(regions.len(), 3);
    assert_eq!(regions[0], vec![(0, 0)]);
    assert!(regions[1].is_empty());
    assert_eq!(regions[2], vec![(1, 1)]);
}

#[test]
fn regions2label_stamps_in_order() {
    let regions = vec![vec![(0usize, 0usize), (0, 1)], vec![(1, 1)]];
    let lbl = regions2label(&regions, (2, 2));
    assert_eq!(lbl.get((0, 0)), 1);
    assert_eq!(lbl.get((0, 1)), 1);
    assert_eq!(lbl.get((1, 1)), 2);
    assert_eq!(lbl.get((1, 0)), 0);
}
