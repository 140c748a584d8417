use std::sync::atomic::{AtomicUsize, Ordering};

use sequoia::bitmap::{dense_get, mark_progression};
use sequoia::search::{
    bucket_step, find_bruteforce_term, find_in_bucket, find_modular_bucket_term,
    first_candidate_in_bucket, BucketStep,
};

fn bitmap_of_first_terms(terms: &[usize]) -> Vec<u64> {
    let mut words = Vec::new();
    for (i, &x) in terms.iter().enumerate() {
        mark_progression(&mut words, i + 1, x);
    }
    words
}

fn is_free(words: &[u64], n: usize, x: usize) -> bool {
    (0..n).all(|k| !dense_get(words, x + k * n))
}

#[test]
fn first_candidate_in_bucket_values() {
    assert_eq!(first_candidate_in_bucket(5, 0), 5);
    assert_eq!(first_candidate_in_bucket(5, 1), 1);
    assert_eq!(first_candidate_in_bucket(5, 4), 4);
    assert_eq!(first_candidate_in_bucket(1, 0), 1);
}

#[test]
fn bucket_step_stops_at_bound() {
    let words: Vec<u64> = Vec::new();
    assert!(matches!(bucket_step(&words, 3, 10, 10), BucketStep::Stop));
    assert!(matches!(bucket_step(&words, 3, 11, 10), BucketStep::Stop));
}

#[test]
fn bucket_step_jumps_past_highest_used_branch() {
    // Used: 1; 2, 4; 3, 6, 9.
    let words = bitmap_of_first_terms(&[1, 2, 3]);
    // Candidate 1 for n = 4: branches 1, 5, 9, 13; highest used is 9 = 1 + 2 * 4.
    match bucket_step(&words, 4, 1, usize::MAX) {
        BucketStep::Jump(y) => assert_eq!(y, 13),
        _ => panic!("expected a jump"),
    }
    // Candidate 2: branches 2, 6, 10, 14; highest used is 6 = 2 + 1 * 4.
    match bucket_step(&words, 4, 2, usize::MAX) {
        BucketStep::Jump(y) => assert_eq!(y, 10),
        _ => panic!("expected a jump"),
    }
}

#[test]
fn bucket_step_finds_free_candidate() {
    let words = bitmap_of_first_terms(&[1, 2, 3]);
    match bucket_step(&words, 4, 7, usize::MAX) {
        BucketStep::Found(y) => assert_eq!(y, 7),
        _ => panic!("expected 7 to be free"),
    }
}

#[test]
fn bruteforce_term_on_empty_bitmap() {
    let words: Vec<u64> = Vec::new();
    assert_eq!(find_bruteforce_term(&words, 1), 1);
    assert_eq!(find_bruteforce_term(&words, 7), 1);
    assert_eq!(find_bruteforce_term(&words, 0), 1);
}

#[test]
fn bruteforce_term_fourth_tree() {
    let words = bitmap_of_first_terms(&[1, 2, 3]);
    assert_eq!(find_bruteforce_term(&words, 4), 7);
}

#[test]
fn modular_term_fourth_tree() {
    let words = bitmap_of_first_terms(&[1, 2, 3]);
    assert_eq!(find_modular_bucket_term(&words, 4), 7);
}

#[test]
fn modular_term_without_buckets_is_max() {
    let words: Vec<u64> = Vec::new();
    assert_eq!(find_modular_bucket_term(&words, 0), usize::MAX);
}

#[test]
fn both_searches_agree_and_are_least() {
    let terms = [1, 2, 3, 7, 8, 14, 22, 31, 40, 60];
    let words = bitmap_of_first_terms(&terms);
    for n in 1..40usize {
        let a = find_bruteforce_term(&words, n);
        let b = find_modular_bucket_term(&words, n);
        assert_eq!(a, b, "n = {n}");
        assert!(is_free(&words, n, a));
        for y in 1..a {
            assert!(!is_free(&words, n, y), "n = {n}, y = {y}");
        }
    }
}

#[test]
fn find_in_bucket_with_open_bound() {
    let words = bitmap_of_first_terms(&[1, 2, 3]);
    let best = AtomicUsize::new(usize::MAX);
    // Bucket 3 mod 4: 3 (blocked by 3), 7 (free).
    assert_eq!(find_in_bucket(&words, 4, 3, &best), Some(7));
    assert_eq!(best.load(Ordering::Relaxed), 7);
    // Bucket 0 mod 4: 4 (blocked), 8, 12, 16 ... all beyond 7: given up.
    assert_eq!(find_in_bucket(&words, 4, 0, &best), None);
    assert_eq!(best.load(Ordering::Relaxed), 7);
}

#[test]
fn find_in_bucket_gives_up_below_bound() {
    let words = bitmap_of_first_terms(&[1, 2, 3]);
    let best = AtomicUsize::new(2);
    assert_eq!(find_in_bucket(&words, 4, 3, &best), None);
    assert_eq!(best.load(Ordering::Relaxed), 2);
}

#[test]
fn find_in_bucket_lowers_bound() {
    let words: Vec<u64> = Vec::new();
    let best = AtomicUsize::new(100);
    assert_eq!(find_in_bucket(&words, 5, 2, &best), Some(2));
    assert_eq!(best.load(Ordering::Relaxed), 2);
}

#[test]
fn find_in_bucket_without_branches() {
    let words: Vec<u64> = vec![u64::MAX];
    let best = AtomicUsize::new(usize::MAX);
    assert_eq!(find_in_bucket(&words, 0, 9, &best), Some(9));
}

#[test]
fn least_of_bucket_results_is_the_term() {
    let terms = [1, 2, 3, 7, 8, 14, 22, 31, 40, 60, 82, 83];
    let words = bitmap_of_first_terms(&terms);
    for n in 1..30usize {
        let shared = AtomicUsize::new(usize::MAX);
        let mut least = usize::MAX;
        for residue in 0..n {
            let open = AtomicUsize::new(usize::MAX);
            let first_free = find_in_bucket(&words, n, residue, &open).unwrap();
            assert_eq!(first_free % n, residue);
            least = least.min(first_free);
            find_in_bucket(&words, n, residue, &shared);
        }
        assert_eq!(least, find_bruteforce_term(&words, n), "n = {n}");
        assert_eq!(shared.load(Ordering::Relaxed), least, "n = {n}");
    }
}
