use penrose_lattice::inflation::InflationDeflation;

#[test]
fn test_inflate_graph_doubles_edges() {
    // the triangle: 3 nodes, 3 edges, so 3 bridges and 6 half-edges
    let triangle = vec![vec![false, true, true], vec![true, false, true], vec![true, true, false]];
    let pairs = InflationDeflation::bridge_pairs(&triangle);
    assert_eq!(triangle.len() + pairs.len(), 6); // 3 nodes + 3 bridges
    assert_eq!(2 * pairs.len(), 6); // 3 edges → 6 half-edges
    assert_eq!(pairs, vec![(0, 1), (0, 2), (1, 2)]);
}

#[test]
fn bridge_pairs_skip_the_diagonal_and_lower_half() {
    let pattern = vec![
        vec![true, false, false, true],
        vec![true, true, true, false],
        vec![false, false, false, false],
        vec![true, true, true, true],
    ];
    assert_eq!(InflationDeflation::bridge_pairs(&pattern), vec![(0, 3), (1, 2)]);
}

#[test]
fn bridge_pairs_of_empty_and_single() {
    let empty: Vec<Vec<bool>> = Vec::new();
    assert!(InflationDeflation::bridge_pairs(&empty).is_empty());
    assert!(InflationDeflation::bridge_pairs(&vec![vec![true]]).is_empty());
    // the last row is never read
    assert!(InflationDeflation::bridge_pairs(&vec![vec![false, false], vec![]]).is_empty());
}
