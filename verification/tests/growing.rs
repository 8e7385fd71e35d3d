use microcount::types::Matrix;
use microcount::regions::{centroids, floodfill};

fn mask_from(rows: usize, cols: usize, fg: &[(usize, usize)]) -> Matrix<bool> {
    let mut m = Matrix::<bool>::filled(rows, cols, false);
    for &p in fg {
        m.set(p, true);
    }
    m
}

#[test]
fn each_marker_gets_its_own_region() {
    // A 1x7 corridor split between two markers at its ends; the shared
    // middle pixel goes to whichever frontier reaches it first.
    let m = mask_from(1, 7, &[(0, 0), (0, 1), (0, 2), (0, 3), (0, 4), (0, 5), (0, 6)]);
    let markers = vec![(0usize, 0usize), (0, 6)];
    let regions = floodfill(&m, &markers);
    assert_eq!(regions.len(), 2);
    assert_eq!(regions[0][0], (0, 0));
    assert_eq!(regions[1][0], (0, 6));
    let mut seen = std::collections::HashSet::new();
    for region in &regions {
        for &p in region {
            assert!(seen.insert(p), "a pixel may be assigned to one marker only");
        }
    }
    assert_eq!(seen.len(), 7);
    // Round-synchronized growth splits the corridor evenly; the middle
    // pixel is claimed by the earlier-listed marker.
    assert_eq!(regions[0].len(), 4);
    assert_eq!(regions[1].len(), 3);
}

#[test]
fn unreachable_marker_keeps_singleton_region() {
    let m = mask_from(3, 3, &[(0, 0), (0, 1)]);
    let markers = vec![(0usize, 0usize), (2, 2)];
    let regions = floodfill(&m, &markers);
    assert_eq!(regions.len(), 2);
    assert_eq!(regions[1], vec![(2, 2)]);
}

#[test]
fn grower_never_crosses_to_another_cell() {
    // Two disjoint nets; no pixel of one may end up in the other's region.
    let left = [(1usize, 0usize), (1, 1), (0, 1)];
    let right = [(1usize, 4usize), (1, 5), (2, 5)];
    let mut fg = Vec::new();
    fg.extend_from_slice(&left);
    fg.extend_from_slice(&right);
    let m = mask_from(3, 6, &fg);
    let markers = vec![(1usize, 0usize), (1, 5)];
    let regions = floodfill(&m, &markers);
    for &p in &regions[0] {
        assert!(!right.contains(&p), "left cell grabbed a right-net pixel");
    }
    for &p in &regions[1] {
        assert!(!left.contains(&p), "right cell grabbed a left-net pixel");
    }
    assert_eq!(regions[0].len(), 3);
    assert_eq!(regions[1].len(), 3);
}

#[test]
fn centroid_is_truncated_mean() {
    let region = vec![(0usize, 0usize), (0, 1), (2, 2)];
    // Sums (2, 3) over 3 members: truncated means (0, 1).
    assert_eq!(centroids(&region), (0, 1));
    let square = vec![(1usize, 1usize), (1, 2), (2, 1), (2, 2)];
    assert_eq!(centroids(&square), (1, 1));
}
