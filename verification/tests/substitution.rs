use penrose_lattice::substitution::{mat2_mul_u64, SubstitutionMatrix};

const PHI: f64 = 1.618033988749895;

#[test]
fn test_apply_n_fibonacci() {
    let m = SubstitutionMatrix::apply_n(1);
    assert_eq!(m[0][0], 1);
    assert_eq!(m[0][1], 1);
    assert_eq!(m[1][0], 1);
    assert_eq!(m[1][1], 0);
    // F(5) = 5
    let m5 = SubstitutionMatrix::apply_n(5);
    assert_eq!(m5[0][0], 8); // F(6)
    assert_eq!(m5[0][1], 5); // F(5)
}

#[test]
fn test_golden_ratio_convergence() {
    let terms = SubstitutionMatrix::golden_ratio_terms(10);
    assert!(!terms.is_empty());
    let (thick, thin) = *terms.last().unwrap();
    let last = thick as f64 / thin as f64;
    assert!((last - PHI).abs() < 0.05, "ratio {} should be close to φ", last);
}

#[test]
fn apply_n_zero_is_identity() {
    assert_eq!(SubstitutionMatrix::apply_n(0), [[1, 0], [0, 1]]);
}

#[test]
fn apply_n_readme_example() {
    // [[F(11), F(10)], [F(10), F(9)]]
    assert_eq!(SubstitutionMatrix::apply_n(10), [[89, 55], [55, 34]]);
}

#[test]
fn apply_n_largest_accepted_power() {
    // F(64) = 10610209857723, F(63) = 6557470319842, F(62) = 4052739537881
    assert_eq!(
        SubstitutionMatrix::apply_n(63),
        [[10610209857723, 6557470319842], [6557470319842, 4052739537881]]
    );
}

#[test]
fn powers_multiply_by_adding_exponents() {
    let a = SubstitutionMatrix::apply_n(7);
    let b = SubstitutionMatrix::apply_n(9);
    assert_eq!(mat2_mul_u64(&a, &b), SubstitutionMatrix::apply_n(16));
}

#[test]
fn cassini_identity_on_powers() {
    for n in 0..40usize {
        let m = SubstitutionMatrix::apply_n(n);
        let det = (m[0][0] as i128) * (m[1][1] as i128) - (m[0][1] as i128) * (m[1][0] as i128);
        assert_eq!(det, if n % 2 == 0 { 1 } else { -1 });
    }
}

#[test]
fn mat2_mul_u64_general_product() {
    let a = [[2, 3], [5, 7]];
    let b = [[11, 13], [17, 19]];
    assert_eq!(mat2_mul_u64(&a, &b), [[73, 83], [174, 198]]);
}

#[test]
fn golden_ratio_terms_are_consecutive_fibonacci() {
    let terms = SubstitutionMatrix::golden_ratio_terms(6);
    assert_eq!(terms, vec![(2, 1), (3, 2), (5, 3), (8, 5), (13, 8), (21, 13)]);
    assert!(SubstitutionMatrix::golden_ratio_terms(0).is_empty());
}
