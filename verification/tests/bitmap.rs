use sequoia::bitmap::{dense_get, dense_set, mark_progression};

#[test]
fn dense_get_on_empty_bitmap_is_false() {
    let words: Vec<u64> = Vec::new();
    assert!(!dense_get(&words, 0));
    assert!(!dense_get(&words, 63));
    assert!(!dense_get(&words, 1_000_000));
}

#[test]
fn dense_set_marks_one_bit_and_grows() {
    let mut words: Vec<u64> = Vec::new();
    dense_set(&mut words, 130);
    assert_eq!(words.len(), 3);
    assert_eq!(words, vec![0, 0, 1u64 << 2]);
    assert!(dense_get(&words, 130));
    assert!(!dense_get(&words, 129));
    assert!(!dense_get(&words, 131));
    assert!(!dense_get(&words, 2));
}

#[test]
fn dense_set_word_edges() {
    let mut words: Vec<u64> = Vec::new();
    dense_set(&mut words, 0);
    dense_set(&mut words, 63);
    assert_eq!(words.len(), 1);
    assert_eq!(words[0], 1u64 | (1u64 << 63));
    dense_set(&mut words, 64);
    assert_eq!(words.len(), 2);
    assert_eq!(words[1], 1);
    assert!(dense_get(&words, 0));
    assert!(dense_get(&words, 63));
    assert!(dense_get(&words, 64));
    assert!(!dense_get(&words, 65));
}

#[test]
fn dense_set_below_end_keeps_length() {
    let mut words: Vec<u64> = vec![0, 0, 0, 0];
    dense_set(&mut words, 5);
    assert_eq!(words.len(), 4);
    assert_eq!(words[0], 1u64 << 5);
    dense_set(&mut words, 5);
    assert_eq!(words[0], 1u64 << 5);
}

#[test]
fn mark_progression_marks_every_branch() {
    // The fifth tree of the sequence: 8, 13, 18, 23, 28.
    let mut words: Vec<u64> = Vec::new();
    mark_progression(&mut words, 5, 8);
    for h in 0..64usize {
        let expected = h == 8 || h == 13 || h == 18 || h == 23 || h == 28;
        assert_eq!(dense_get(&words, h), expected, "height {h}");
    }
    assert_eq!(words.len(), 1);
}

#[test]
fn mark_progression_with_no_branches_changes_nothing() {
    let mut words: Vec<u64> = vec![7];
    mark_progression(&mut words, 0, 500);
    assert_eq!(words, vec![7]);
}

#[test]
fn mark_progression_grows_to_the_top_branch() {
    let mut words: Vec<u64> = Vec::new();
    mark_progression(&mut words, 4, 7);
    // Branches 7, 11, 15, 19 all lie in the first word.
    assert_eq!(words.len(), 1);
    mark_progression(&mut words, 10, 60);
    // Top branch 60 + 9 * 10 = 150 lies in word 2.
    assert_eq!(words.len(), 3);
    assert!(dense_get(&words, 150));
    assert!(dense_get(&words, 19));
    assert!(!dense_get(&words, 151));
}

#[test]
fn readme_first_trees_as_heights() {
    let mut words: Vec<u64> = Vec::new();
    mark_progression(&mut words, 1, 1);
    mark_progression(&mut words, 2, 2);
    mark_progression(&mut words, 3, 3);
    mark_progression(&mut words, 4, 7);
    mark_progression(&mut words, 5, 8);
    let used: Vec<usize> = (0..40usize).filter(|&h| dense_get(&words, h)).collect();
    assert_eq!(
        used,
        vec![1, 2, 3, 4, 6, 7, 8, 9, 11, 13, 15, 18, 19, 23, 28]
    );
}
