use sequoia::sequence::{generate_dense_bruteforce, generate_dense_modular_buckets};

const README_TERMS: [usize; 12] = [1, 2, 3, 7, 8, 14, 22, 31, 40, 60, 82, 83];

#[test]
fn readme_terms_bruteforce() {
    assert_eq!(generate_dense_bruteforce(12), README_TERMS.to_vec());
}

#[test]
fn readme_terms_modular() {
    assert_eq!(generate_dense_modular_buckets(12), README_TERMS.to_vec());
}

#[test]
fn no_terms() {
    assert_eq!(generate_dense_bruteforce(0), Vec::<usize>::new());
    assert_eq!(generate_dense_modular_buckets(0), Vec::<usize>::new());
}

#[test]
fn generators_agree() {
    assert_eq!(generate_dense_bruteforce(80), generate_dense_modular_buckets(80));
}

#[test]
fn branches_of_different_trees_never_meet() {
    let terms = generate_dense_modular_buckets(60);
    let mut seen = std::collections::HashSet::new();
    for (i, &x) in terms.iter().enumerate() {
        let n = i + 1;
        for k in 0..n {
            assert!(seen.insert(x + k * n), "height {} used twice", x + k * n);
        }
    }
}

#[test]
fn each_term_is_the_lowest_possible() {
    let terms = generate_dense_bruteforce(40);
    let mut used = std::collections::HashSet::new();
    for (i, &x) in terms.iter().enumerate() {
        let n = i + 1;
        let free = |y: usize| (0..n).all(|k| !used.contains(&(y + k * n)));
        assert!(x >= 1);
        assert!(free(x));
        for y in 1..x {
            assert!(!free(y), "n = {n}: {y} would do");
        }
        for k in 0..n {
            used.insert(x + k * n);
        }
    }
}
