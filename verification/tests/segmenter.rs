use kmeans_bounds::grid::Grid;
use kmeans_bounds::kmeans::ClusterCenter;
use kmeans_bounds::kmeans::clusters_from_reps;
use kmeans_bounds::kmeans::finalize;
use kmeans_bounds::kmeans::find_best;
use kmeans_bounds::kmeans::generate_clusters;
use kmeans_bounds::kmeans::intensity_dist;
use kmeans_bounds::kmeans::iteration;
use kmeans_bounds::kmeans::segment;

fn reps(cs: &[ClusterCenter]) -> Vec<u8> {
    cs.iter().map(|c| c.color).collect()
}

#[test]
fn grid_new_get_set() {
    let mut g = Grid::new(3, 2, 7);
    assert_eq!(g.width, 3);
    assert_eq!(g.height, 2);
    for x in 0..3 {
        for y in 0..2 {
            assert_eq!(g.get(x, y), 7);
        }
    }
    g.set(2, 1, 99);
    assert_eq!(g.get(2, 1), 99);
    assert_eq!(g.get(2, 0), 7);
    assert_eq!(g.get(1, 1), 7);
}

#[test]
fn grid_from_data_row_major() {
    let g = Grid::from_data(2, 2, vec![1, 2, 3, 4]);
    assert_eq!(g.get(0, 0), 1);
    assert_eq!(g.get(1, 0), 2);
    assert_eq!(g.get(0, 1), 3);
    assert_eq!(g.get(1, 1), 4);
}

#[test]
fn squared_intensity_distance_exact() {
    assert_eq!(intensity_dist(3, 2), 5);
    assert_eq!(intensity_dist(2, 3), 5);
    assert_eq!(intensity_dist(0, 255), 65025);
    assert_eq!(intensity_dist(255, 255), 0);
    // the squared form weights bright values more heavily: 180 is closer
    // to 255 than to 0 linearly, but its squared distance favors 0
    assert_eq!(intensity_dist(0, 180), 32400);
    assert_eq!(intensity_dist(255, 180), 32625);
}

#[test]
fn find_best_prefers_lowest_index_on_tie() {
    let cs = clusters_from_reps(&vec![10, 10, 10]);
    assert_eq!(find_best(&cs, 10), 0);
    assert_eq!(find_best(&cs, 200), 0);
}

#[test]
fn find_best_uses_squared_distance() {
    let cs = clusters_from_reps(&vec![0, 255]);
    assert_eq!(find_best(&cs, 180), 0);
    assert_eq!(find_best(&cs, 200), 1);
}

#[test]
fn add_and_reset_pixels() {
    let mut c = ClusterCenter::new(42);
    assert_eq!(c.color, 42);
    c.add_pixel(9, (1, 2));
    c.add_pixel(17, (0, 0));
    assert_eq!(c.pixel_colors, vec![9, 17]);
    assert_eq!(c.pixel_coords, vec![(1, 2), (0, 0)]);
    c.reset_pixels();
    assert_eq!(c.color, 42);
    assert!(c.pixel_colors.is_empty());
    assert!(c.pixel_coords.is_empty());
}

#[test]
fn recalculate_truncated_mean() {
    let mut c = ClusterCenter::new(0);
    c.add_pixel(10, (0, 0));
    c.add_pixel(20, (1, 0));
    c.add_pixel(31, (2, 0));
    c.recalculate();
    assert_eq!(c.color, 20);
}

#[test]
fn recalculate_empty_keeps_representative() {
    let mut c = ClusterCenter::new(123);
    c.recalculate();
    assert_eq!(c.color, 123);
}

#[test]
fn generate_clusters_empty_assignments() {
    let cs = generate_clusters(5);
    assert_eq!(cs.len(), 5);
    for c in &cs {
        assert!(c.pixel_colors.is_empty());
        assert!(c.pixel_coords.is_empty());
    }
}

#[test]
fn iteration_assignment_and_means() {
    // one column of dark pixels, one of bright ones
    let g = Grid::from_data(2, 2, vec![10, 250, 12, 250]);
    let mut cs = clusters_from_reps(&vec![100, 200]);
    iteration(&g, &mut cs);
    // scan order is x outermost, y innermost
    assert_eq!(cs[0].pixel_coords, vec![(0, 0), (0, 1)]);
    assert_eq!(cs[0].pixel_colors, vec![10, 12]);
    assert_eq!(cs[1].pixel_coords, vec![(1, 0), (1, 1)]);
    assert_eq!(cs[1].pixel_colors, vec![250, 250]);
    assert_eq!(reps(&cs), vec![11, 250]);
}

#[test]
fn iteration_empty_cluster_keeps_representative() {
    let g = Grid::from_data(2, 2, vec![0, 0, 0, 0]);
    let mut cs = clusters_from_reps(&vec![0, 200]);
    iteration(&g, &mut cs);
    assert_eq!(cs[0].pixel_coords.len(), 4);
    assert_eq!(cs[1].pixel_coords.len(), 0);
    assert_eq!(reps(&cs), vec![0, 200]);
}

#[test]
fn coverage_every_pixel_in_exactly_one_cluster() {
    let g = Grid::from_data(3, 3, vec![10, 250, 128, 0, 255, 17, 99, 180, 42]);
    let mut cs = clusters_from_reps(&vec![60, 190, 240]);
    iteration(&g, &mut cs);
    let mut seen: Vec<(usize, usize)> = Vec::new();
    for c in &cs {
        for coord in &c.pixel_coords {
            assert!(!seen.contains(coord));
            seen.push(*coord);
        }
    }
    assert_eq!(seen.len(), 9);
    for x in 0..3 {
        for y in 0..3 {
            assert!(seen.contains(&(x, y)));
        }
    }
}

#[test]
fn convergence_stability_extra_iteration() {
    let g = Grid::from_data(4, 2, vec![10, 10, 10, 10, 250, 250, 250, 250]);
    let mut cs = clusters_from_reps(&vec![100, 200]);
    iteration(&g, &mut cs);
    iteration(&g, &mut cs);
    let reps_stable = reps(&cs);
    let coords_stable: Vec<Vec<(usize, usize)>> =
        cs.iter().map(|c| c.pixel_coords.clone()).collect();
    // representatives have stabilized; one more pass changes nothing
    iteration(&g, &mut cs);
    assert_eq!(reps(&cs), reps_stable);
    let coords_after: Vec<Vec<(usize, usize)>> =
        cs.iter().map(|c| c.pixel_coords.clone()).collect();
    assert_eq!(coords_after, coords_stable);
}

#[test]
fn finalize_rewrites_assigned_pixels() {
    let g = Grid::from_data(2, 1, vec![10, 250]);
    let mut cs = clusters_from_reps(&vec![100, 200]);
    iteration(&g, &mut cs);
    let mut g2 = g;
    finalize(&mut g2, &cs);
    assert_eq!(g2.get(0, 0), 10);
    assert_eq!(g2.get(1, 0), 250);
}

#[test]
fn two_well_separated_intensity_groups() {
    // half the pixels at 10, half at 250; two clusters converge within
    // three iterations and finalize leaves exactly those two intensities
    let mut data = Vec::new();
    for _y in 0..4 {
        for x in 0..4 {
            data.push(if x < 2 { 10 } else { 250 });
        }
    }
    let mut g = Grid::from_data(4, 4, data);
    let mut cs = clusters_from_reps(&vec![100, 200]);
    segment(&mut g, &mut cs, 3);
    assert_eq!(reps(&cs), vec![10, 250]);
    for x in 0..4 {
        for y in 0..4 {
            let v = g.get(x, y);
            assert_eq!(v, if x < 2 { 10 } else { 250 });
            assert!(v == cs[0].color || v == cs[1].color);
        }
    }
}

#[test]
fn quantization_after_segment() {
    let g = Grid::from_data(3, 2, vec![7, 130, 55, 240, 0, 199]);
    let mut g1 = g;
    let mut cs = clusters_from_reps(&vec![40, 210]);
    segment(&mut g1, &mut cs, 3);
    let finals: Vec<u8> = reps(&cs);
    for x in 0..3 {
        for y in 0..2 {
            assert!(finals.contains(&g1.get(x, y)));
        }
    }
}

#[test]
fn segment_deterministic_for_fixed_initial_representatives() {
    let data = vec![3, 90, 17, 201, 255, 44, 12, 158, 73, 220, 5, 99];
    let mut g1 = Grid::from_data(4, 3, data.clone());
    let mut g2 = Grid::from_data(4, 3, data);
    let mut cs1 = clusters_from_reps(&vec![80, 160]);
    let mut cs2 = clusters_from_reps(&vec![80, 160]);
    segment(&mut g1, &mut cs1, 3);
    segment(&mut g2, &mut cs2, 3);
    assert_eq!(reps(&cs1), reps(&cs2));
    for (a, b) in cs1.iter().zip(cs2.iter()) {
        assert_eq!(a.pixel_coords, b.pixel_coords);
        assert_eq!(a.pixel_colors, b.pixel_colors);
    }
    for x in 0..4 {
        for y in 0..3 {
            assert_eq!(g1.get(x, y), g2.get(x, y));
        }
    }
}

#[test]
fn segment_zero_iterations_leaves_grid() {
    let mut g = Grid::from_data(2, 2, vec![1, 2, 3, 4]);
    let mut cs = clusters_from_reps(&vec![50]);
    segment(&mut g, &mut cs, 0);
    assert_eq!(g.get(0, 0), 1);
    assert_eq!(g.get(1, 0), 2);
    assert_eq!(g.get(0, 1), 3);
    assert_eq!(g.get(1, 1), 4);
    assert_eq!(reps(&cs), vec![50]);
}
