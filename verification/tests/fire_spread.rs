use forest_fire::config::BurnPattern;
use forest_fire::fire_spread::{
    check_boundaries, FireSpreadStrategy, MooreNeighborhood, VonNeumannNeighborhood,
};

// Helper to sort coordinates for comparison
fn sorted(mut vec: Vec<(usize, usize)>) -> Vec<(usize, usize)> {
    vec.sort();
    vec
}

#[test]
fn test_moore_neighborhood_center() {
    let moore = MooreNeighborhood;
    let neighbors = moore.spread(1, 1, 3);
    let expected = vec![
        (0, 0), (0, 1), (0, 2),
        (1, 0),         (1, 2),
        (2, 0), (2, 1), (2, 2)
    ];
    assert_eq!(neighbors.len(), 8);
    assert_eq!(sorted(neighbors), sorted(expected));
}

#[test]
fn test_moore_neighborhood_edge() {
    let moore = MooreNeighborhood;
    let neighbors = moore.spread(0, 1, 3);
    let expected = vec![
        (0, 0), (0, 2),
        (1, 0), (1, 1), (1, 2)
    ];
    assert_eq!(neighbors.len(), 5);
    assert_eq!(sorted(neighbors), sorted(expected));
}

#[test]
fn test_moore_neighborhood_corner() {
    let moore = MooreNeighborhood;
    let neighbors = moore.spread(0, 0, 3);
    let expected = vec![
        (0, 1),
        (1, 0), (1, 1)
    ];
    assert_eq!(neighbors.len(), 3);
    assert_eq!(sorted(neighbors), sorted(expected));
}

#[test]
fn test_von_neumann_center() {
    let vn = VonNeumannNeighborhood;
    let neighbors = vn.spread(1, 1, 3);
    let expected = vec![
        (0, 1),
        (1, 0), (1, 2),
        (2, 1)
    ];
    assert_eq!(neighbors.len(), 4);
    assert_eq!(sorted(neighbors), sorted(expected));
}

#[test]
fn test_von_neumann_edge() {
    let vn = VonNeumannNeighborhood;
    let neighbors = vn.spread(0, 1, 3);
    let expected = vec![
        (1, 1), // From (-1, 0) is invalid
        (0, 0),
        (0, 2)
    ];
    assert_eq!(neighbors.len(), 3);
    assert_eq!(sorted(neighbors), sorted(expected));
}

#[test]
fn test_von_neumann_corner() {
    let vn = VonNeumannNeighborhood;
    let neighbors = vn.spread(0, 0, 3);
    let expected = vec![
        (1, 0),  // From (0, -1) is invalid
        (0, 1)   // From (-1, 0) is invalid
    ];
    assert_eq!(neighbors.len(), 2);
    assert_eq!(sorted(neighbors), sorted(expected));
}

#[test]
fn test_boundary_check() {
    let mut neighbors = Vec::new();
    check_boundaries(2, 2, 1, 1, 3, &mut neighbors);
    assert_eq!(neighbors, vec![]);  // (3,3) is out of bounds
}

#[test]
fn test_boundary_check_keeps_what_is_there() {
    let mut neighbors = vec![(7, 7)];
    check_boundaries(1, 1, -1, 1, 3, &mut neighbors);
    assert_eq!(neighbors, vec![(7, 7), (0, 2)]);
    check_boundaries(0, 0, -1, 0, 3, &mut neighbors);
    check_boundaries(0, 0, 0, -1, 3, &mut neighbors);
    check_boundaries(2, 0, 1, 0, 3, &mut neighbors);
    assert_eq!(neighbors, vec![(7, 7), (0, 2)]);
}

#[test]
fn test_boundary_check_far_offsets() {
    let mut neighbors = Vec::new();
    check_boundaries(5, 5, -5, 4, 10, &mut neighbors);
    check_boundaries(5, 5, i32::MIN, 0, 10, &mut neighbors);
    check_boundaries(5, 5, i32::MAX, 0, 10, &mut neighbors);
    check_boundaries(usize::MAX, 0, 1, 0, usize::MAX, &mut neighbors);
    check_boundaries(usize::MAX - 1, 0, -1, 0, usize::MAX, &mut neighbors);
    assert_eq!(neighbors, vec![(0, 9), (usize::MAX - 2, 0)]);
}

#[test]
fn test_moore_enumeration_order() {
    let neighbors = MooreNeighborhood.spread(1, 1, 3);
    assert_eq!(
        neighbors,
        vec![(0, 0), (0, 1), (0, 2), (1, 0), (1, 2), (2, 0), (2, 1), (2, 2)]
    );
}

#[test]
fn test_von_neumann_enumeration_order() {
    let neighbors = VonNeumannNeighborhood.spread(1, 1, 3);
    assert_eq!(neighbors, vec![(0, 1), (2, 1), (1, 0), (1, 2)]);
}

#[test]
fn test_single_cell_grid_has_no_neighbors() {
    assert_eq!(MooreNeighborhood.spread(0, 0, 1), vec![]);
    assert_eq!(VonNeumannNeighborhood.spread(0, 0, 1), vec![]);
}

#[test]
fn test_cell_off_the_grid() {
    assert_eq!(MooreNeighborhood.spread(3, 3, 3), vec![(2, 2)]);
    assert_eq!(VonNeumannNeighborhood.spread(3, 3, 3), vec![]);
    assert_eq!(MooreNeighborhood.spread(0, 0, 0), vec![]);
}

#[test]
fn test_pattern_follows_its_strategy() {
    let moore = BurnPattern::Moore(MooreNeighborhood);
    let von_neumann = BurnPattern::VonNeumann(VonNeumannNeighborhood);
    for x in 0..4 {
        for y in 0..4 {
            assert_eq!(moore.spread(x, y, 4), MooreNeighborhood.spread(x, y, 4));
            assert_eq!(von_neumann.spread(x, y, 4), VonNeumannNeighborhood.spread(x, y, 4));
        }
    }
}

#[test]
fn test_strategy_behind_a_reference() {
    let strategy: &dyn FireSpreadStrategy = &VonNeumannNeighborhood;
    assert_eq!(sorted(strategy.spread(2, 2, 3)), vec![(1, 2), (2, 1)]);
}
