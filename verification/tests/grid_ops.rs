use microcount::types::Matrix;
use microcount::helpers::{euc_sq, nearest, neighbour_of, scholl_rings};

#[test]
fn matrix_set_and_get_round_trip() {
    let mut m = Matrix::<bool>::filled(2, 3, false);
    assert_eq!(m.rows, 2);
    assert_eq!(m.cols, 3);
    m.set((1, 2), true);
    assert!(m.get((1, 2)));
    assert!(!m.get((0, 0)));
    assert!(!m.get((1, 1)));
    let mut lbl = Matrix::<u32>::filled(2, 2, 7);
    lbl.set((0, 1), 9);
    assert_eq!(lbl.get((0, 1)), 9);
    assert_eq!(lbl.get((1, 1)), 7);
}

#[test]
fn neighbour_order_is_clockwise_from_north() {
    let sh = (3, 3);
    let p = (1, 1);
    let expected = [
        (0usize, 1usize),
        (0, 2),
        (1, 2),
        (2, 2),
        (2, 1),
        (2, 0),
        (1, 0),
        (0, 0),
    ];
    for k in 0..8 {
        assert_eq!(neighbour_of(p, k, sh), Some(expected[k]));
    }
}

#[test]
fn neighbour_out_of_bounds_is_none() {
    let sh = (2, 2);
    assert_eq!(neighbour_of((0, 0), 0, sh), None);
    assert_eq!(neighbour_of((0, 0), 7, sh), None);
    assert_eq!(neighbour_of((0, 0), 2, sh), Some((0, 1)));
    assert_eq!(neighbour_of((0, 0), 3, sh), Some((1, 1)));
}

#[test]
fn squared_distance_exact() {
    assert_eq!(euc_sq((0, 0), (3, 4)), 25);
    assert_eq!(euc_sq((5, 5), (5, 5)), 0);
    assert_eq!(euc_sq((2, 7), (4, 1)), 4 + 36);
}

#[test]
fn nearest_breaks_ties_by_first() {
    let pts = vec![(0usize, 2usize), (2, 0), (1, 1)];
    // (0,2) and (2,0) are both at squared distance 4 from (0,0); (1,1) is at 2.
    assert_eq!(nearest((0, 0), &pts), Some((1, 1)));
    let tied = vec![(0usize, 2usize), (2, 0)];
    assert_eq!(nearest((0, 0), &tied), Some((0, 2)));
    let empty: Vec<(usize, usize)> = Vec::new();
    assert_eq!(nearest((0, 0), &empty), None);
}

#[test]
fn scholl_rings_groups_by_radius() {
    // Around (2,2): four pixels at squared radius 1, four at 2, one at 4,
    // fed in scrambled order; the seed itself is discarded.
    let pts = vec![
        (2usize, 2usize), // the seed: distance 0, dropped
        (0, 2),           // r2 = 4
        (1, 2),           // r2 = 1
        (3, 3),           // r2 = 2
        (2, 1),           // r2 = 1
        (1, 1),           // r2 = 2
        (2, 3),           // r2 = 1
        (3, 1),           // r2 = 2
        (3, 2),           // r2 = 1
        (1, 3),           // r2 = 2
    ];
    let rings = scholl_rings((2, 2), &pts);
    assert_eq!(rings, vec![(1, 4), (2, 4), (4, 1)]);
}

#[test]
fn scholl_rings_empty_for_seed_only() {
    let pts = vec![(1usize, 1usize)];
    let rings = scholl_rings((1, 1), &pts);
    assert!(rings.is_empty());
}
