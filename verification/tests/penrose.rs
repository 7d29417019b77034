use penrose_lattice::penrose::PenroseTopology;

const PHI: f64 = 1.618033988749895;

#[test]
fn test_penrose_from_inflation() {
    let pg = PenroseTopology::from_inflation(2);
    assert!(pg.node_count > 4, "should have more than seed nodes");
    assert!(!pg.edges.is_empty());
}

#[test]
fn test_tile_ratio_approaches_phi() {
    let pg = PenroseTopology::from_inflation(8);
    let ratio = pg.tile_counts.0 as f64 / pg.tile_counts.1 as f64;
    assert!((ratio - PHI).abs() < 0.1, "tile ratio {} should approach φ", ratio);
}

#[test]
fn test_deflation() {
    let pg = PenroseTopology::from_inflation(3);
    let deflated = pg.deflate();
    assert!(deflated.is_some());
    let d = deflated.unwrap();
    assert!(d.node_count < pg.node_count);
}

#[test]
fn seed_is_a_thick_rhomb() {
    let g = PenroseTopology::seed_thick();
    assert_eq!(g.node_count, 4);
    assert_eq!(g.edges, vec![(0, 1), (1, 2), (2, 3), (3, 0), (0, 2)]);
    assert_eq!(g.tile_counts, (1, 0));
}

#[test]
fn one_inflation_splits_every_edge() {
    let g = PenroseTopology::seed_thick().inflate();
    assert_eq!(g.node_count, 9);
    assert_eq!(
        g.edges,
        vec![(0, 4), (4, 1), (1, 5), (5, 2), (2, 6), (6, 3), (3, 7), (7, 0), (0, 8), (8, 2)]
    );
    assert_eq!(g.tile_counts, (1, 1));
}

#[test]
fn inflation_counts_follow_fibonacci() {
    let fib = [0u64, 1, 1, 2, 3, 5, 8, 13, 21, 34, 55];
    for levels in 0..10usize {
        let g = PenroseTopology::from_inflation(levels);
        assert_eq!(g.edges.len(), 5 << levels);
        assert_eq!(g.node_count, (5 << levels) - 1);
        assert_eq!(g.tile_counts, (fib[levels + 1], fib[levels]));
        let (t, s) = (g.tile_counts.0 as i64, g.tile_counts.1 as i64);
        assert_eq!(t * t - t * s - s * s, if levels % 2 == 0 { 1 } else { -1 });
    }
}

#[test]
fn deflation_undoes_inflation_on_tiles() {
    let g = PenroseTopology::from_inflation(4);
    let d = g.inflate().deflate().unwrap();
    assert_eq!(d.tile_counts, g.tile_counts);
}

#[test]
fn deflation_keeps_edges_among_first_nodes() {
    let g = PenroseTopology::seed_thick().inflate();
    let d = g.deflate().unwrap();
    assert_eq!(d.node_count, 5);
    assert_eq!(d.edges, vec![(0, 4), (4, 1)]);
    assert_eq!(d.tile_counts, (1, 0));
    assert_eq!(g.edges_within(5), vec![0, 1]);
}

#[test]
fn nothing_to_deflate_below_seven_nodes() {
    assert!(PenroseTopology::seed_thick().deflate().is_none());
    let six = PenroseTopology { node_count: 6, edges: vec![(0, 5)], tile_counts: (2, 1) };
    assert!(six.deflate().is_none());
    let seven = PenroseTopology { node_count: 7, edges: vec![(0, 5), (1, 3)], tile_counts: (1, 2) };
    let d = seven.deflate().unwrap();
    assert_eq!(d.node_count, 4);
    assert_eq!(d.edges, vec![(1, 3)]);
    // thick − thin is cut off at zero
    assert_eq!(d.tile_counts, (2, 0));
}
