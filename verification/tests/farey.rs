use penrose_lattice::farey::FareySequence;
use penrose_lattice::number_theory::gcd;

#[test]
fn test_farey_order_5_count() {
    let f = FareySequence::of_order(5);
    // |F(5)| = 1 + sum_{k=1}^{5} phi(k) = 1 + 1 + 1 + 2 + 2 + 4 = 11
    assert_eq!(f.fractions.len(), 11);
}

#[test]
fn test_farey_adjacent_bc_ad_equals_1() {
    let f = FareySequence::of_order(5);
    for w in f.fractions.windows(2) {
        let (a, b) = w[0];
        let (c, d) = w[1];
        assert_eq!((b * c).abs_diff(a * d), 1, "Farey adjacency: bc-ad=1");
    }
}

#[test]
fn test_mediant() {
    let (n, d) = FareySequence::mediant(1, 3, 2, 5);
    assert_eq!(n, 3);
    assert_eq!(d, 8);
}

#[test]
fn test_stern_brocot_tree() {
    let sb = FareySequence::stern_brocot_tree(3);
    assert!(!sb.is_empty());
    // All should be valid fractions
    for &(n, d) in &sb {
        assert!(d > 0);
        assert!(gcd(n, d) > 0);
    }
}

#[test]
fn test_integration_farey_fibonacci_indexing() {
    // Farey sequence of increasing order should grow ~ 3n²/π²
    let f3 = FareySequence::of_order(3);
    let f5 = FareySequence::of_order(5);
    assert!(f5.fractions.len() > f3.fractions.len());
}

#[test]
fn farey_order_5_exact() {
    let f = FareySequence::of_order(5);
    assert_eq!(f.n, 5);
    assert_eq!(
        f.fractions,
        vec![(0, 1), (1, 5), (1, 4), (1, 3), (2, 5), (1, 2), (3, 5), (2, 3), (3, 4), (4, 5), (1, 1)]
    );
}

#[test]
fn farey_orders_zero_and_one() {
    assert_eq!(FareySequence::of_order(0).fractions, vec![(0, 1), (1, 1)]);
    assert_eq!(FareySequence::of_order(1).fractions, vec![(0, 1), (1, 1)]);
}

#[test]
fn farey_neighbours_at_order_12() {
    let f = FareySequence::of_order(12);
    for w in f.fractions.windows(2) {
        let (a, b) = w[0];
        let (c, d) = w[1];
        assert_eq!(b * c - a * d, 1);
    }
}

#[test]
fn farey_adjacency_order_3() {
    // 0/1 1/3 1/2 2/3 1/1
    let f = FareySequence::of_order(3);
    let adj = f.farey_adjacency();
    assert_eq!(adj.len(), 5);
    let expected = [
        [false, true, true, false, true],
        [true, false, true, false, false],
        [true, true, false, true, true],
        [false, false, true, false, true],
        [true, false, true, true, false],
    ];
    for i in 0..5 {
        assert_eq!(adj[i].len(), 5);
        for j in 0..5 {
            assert_eq!(adj[i][j], expected[i][j], "entry ({}, {})", i, j);
        }
    }
}

#[test]
fn stern_brocot_depth_3_exact() {
    assert_eq!(
        FareySequence::stern_brocot_tree(3),
        vec![(1, 1), (1, 2), (1, 3), (2, 3), (2, 1), (3, 2), (3, 1)]
    );
}

#[test]
fn stern_brocot_depth_0_and_1() {
    assert_eq!(FareySequence::stern_brocot_tree(0), vec![(1, 1)]);
    assert_eq!(FareySequence::stern_brocot_tree(1), vec![(1, 1)]);
}

#[test]
fn stern_brocot_nodes_are_reduced() {
    let sb = FareySequence::stern_brocot_tree(10);
    assert_eq!(sb.len(), 1023);
    for &(n, d) in &sb {
        assert!(d > 0);
        assert_eq!(gcd(n, d), 1);
    }
}

#[test]
fn gcd_values() {
    assert_eq!(gcd(12, 18), 6);
    assert_eq!(gcd(18, 12), 6);
    assert_eq!(gcd(7, 0), 7);
    assert_eq!(gcd(0, 9), 9);
    assert_eq!(gcd(0, 0), 0);
    assert_eq!(gcd(17, 5), 1);
}

#[test]
fn mediant_lies_between() {
    let (p, q) = FareySequence::mediant(2, 5, 1, 2);
    assert_eq!((p, q), (3, 7));
    assert!(2 * q < p * 5);
    assert!(p * 2 < 1 * q);
}
