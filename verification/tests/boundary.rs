use kmeans_bounds::bounds::Bounds;
use kmeans_bounds::grid::Grid;

#[test]
fn all_background_leaves_labels_unset() {
    let g = Grid::new(4, 4, 0);
    let b = Bounds::from_grid(&g);
    assert_eq!(b.x0, None);
    assert_eq!(b.x1, None);
    assert_eq!(b.x2, None);
    assert_eq!(b.x3, None);
    assert_eq!(b.x4, None);
    assert_eq!(b.x5, None);
    assert_eq!(b.x6, None);
    assert_eq!(b.x7, None);
}

#[test]
fn single_foreground_pixel_takes_every_label() {
    let mut g = Grid::new(4, 4, 0);
    g.set(2, 1, 255);
    let b = Bounds::from_grid(&g);
    let p = Some((2, 1));
    assert_eq!(b.x0, p);
    assert_eq!(b.x1, p);
    assert_eq!(b.x2, p);
    assert_eq!(b.x3, p);
    assert_eq!(b.x4, p);
    assert_eq!(b.x5, p);
    assert_eq!(b.x6, p);
    assert_eq!(b.x7, p);
}

#[test]
fn one_by_one_foreground_grid() {
    let g = Grid::new(1, 1, 9);
    let b = Bounds::from_grid(&g);
    assert_eq!(b.x0, Some((0, 0)));
    assert_eq!(b.x4, Some((0, 0)));
    assert_eq!(b.x7, Some((0, 0)));
}

#[test]
fn edge_labels_follow_axis_extremes() {
    // foreground at (1, 0), (0, 2), (3, 3)
    let mut g = Grid::new(4, 4, 0);
    g.set(1, 0, 200);
    g.set(0, 2, 200);
    g.set(3, 3, 200);
    let b = Bounds::from_grid(&g);
    // scan order is x outermost, y innermost: (0,2), (1,0), (3,3)
    assert_eq!(b.x1, Some((1, 0)));  // least y
    assert_eq!(b.x5, Some((3, 3)));  // greatest y
    assert_eq!(b.x3, Some((3, 3)));  // greatest x
    assert_eq!(b.x7, Some((0, 2)));  // least x
}

#[test]
fn corner_labels_require_joint_improvement() {
    // (0, 3) is scanned first and takes NW; (3, 0) improves only y,
    // so NW keeps (0, 3) even though (3, 0) has the smaller y
    let mut g = Grid::new(4, 4, 0);
    g.set(0, 3, 1);
    g.set(3, 0, 1);
    let b = Bounds::from_grid(&g);
    assert_eq!(b.x0, Some((0, 3)));
    assert_eq!(b.x1, Some((3, 0)));
    assert_eq!(b.x7, Some((0, 3)));
    // NE asks for larger x and smaller y at once: (3, 0) beats (0, 3)
    assert_eq!(b.x2, Some((3, 0)));
    // SE asks for larger x and larger y at once: (3, 0) improves only x
    assert_eq!(b.x4, Some((0, 3)));
    assert_eq!(b.x6, Some((0, 3)));
}

#[test]
fn edge_ties_keep_first_in_scan_order() {
    // two pixels share the least y; the one scanned first keeps N
    let mut g = Grid::new(4, 4, 0);
    g.set(1, 1, 5);
    g.set(3, 1, 5);
    let b = Bounds::from_grid(&g);
    assert_eq!(b.x1, Some((1, 1)));
    assert_eq!(b.x5, Some((1, 1)));
}

#[test]
fn boundary_monotonicity_brute_force() {
    let data = vec![
        0, 7, 0, 0, 9,
        0, 0, 3, 0, 0,
        0, 5, 0, 0, 0,
        0, 0, 0, 8, 0,
    ];
    let g = Grid::from_data(5, 4, data);
    let b = Bounds::from_grid(&g);
    let n = b.x1.unwrap();
    let s = b.x5.unwrap();
    let e = b.x3.unwrap();
    let w = b.x7.unwrap();
    for x in 0..5 {
        for y in 0..4 {
            if g.get(x, y) != 0 {
                assert!(n.1 <= y);
                assert!(s.1 >= y);
                assert!(e.0 >= x);
                assert!(w.0 <= x);
            }
        }
    }
}

#[test]
fn corner_labels_match_on_one_axis_direction() {
    let data = vec![
        0, 7, 0, 0, 9,
        0, 0, 3, 0, 0,
        0, 5, 0, 0, 0,
        0, 0, 0, 8, 0,
    ];
    let g = Grid::from_data(5, 4, data);
    let b = Bounds::from_grid(&g);
    let nw = b.x0.unwrap();
    let ne = b.x2.unwrap();
    let se = b.x4.unwrap();
    let sw = b.x6.unwrap();
    for x in 0..5 {
        for y in 0..4 {
            if g.get(x, y) != 0 {
                assert!(nw.0 <= x || nw.1 <= y);
                assert!(ne.0 >= x || ne.1 <= y);
                assert!(se.0 >= x || se.1 >= y);
                assert!(sw.0 <= x || sw.1 >= y);
            }
        }
    }
}
