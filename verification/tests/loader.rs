use sequoia::bitmap::{dense_get, mark_progression};
use sequoia::loader::LoadState;
use sequoia::sequence::generate_dense_modular_buckets;
use sequoia::term_line::format_term_line;

fn feed(state: &mut LoadState, words: &mut Vec<u64>, line: &str) -> bool {
    let chars: Vec<char> = line.chars().collect();
    state.accept_line(words, &chars, line.len() as u64)
}

#[test]
fn new_state_expects_first_index() {
    let state = LoadState::new();
    assert_eq!(state.expected_n, 1);
    assert_eq!(state.current_offset, 0);
    assert_eq!(state.last_good_offset, 0);
    assert_eq!(state.loaded_terms(), 0);
}

#[test]
fn loads_consecutive_lines_and_stops_at_a_gap() {
    let mut state = LoadState::new();
    let mut words = Vec::new();
    assert!(feed(&mut state, &mut words, "1 1\n"));
    assert!(feed(&mut state, &mut words, "2 2\n"));
    assert!(feed(&mut state, &mut words, "3 3\n"));
    assert!(!feed(&mut state, &mut words, "5 8\n"));
    assert_eq!(state.loaded_terms(), 3);
    assert_eq!(state.current_offset, 16);
    assert_eq!(state.last_good_offset, 12);

    let mut expected = Vec::new();
    mark_progression(&mut expected, 1, 1);
    mark_progression(&mut expected, 2, 2);
    mark_progression(&mut expected, 3, 3);
    assert_eq!(words, expected);
    assert!(!dense_get(&words, 8));
}

#[test]
fn stops_at_a_malformed_line() {
    let mut state = LoadState::new();
    let mut words = Vec::new();
    assert!(feed(&mut state, &mut words, "1 1\n"));
    assert!(!feed(&mut state, &mut words, "2 two\n"));
    assert_eq!(state.loaded_terms(), 1);
    assert_eq!(state.last_good_offset, 4);
    assert_eq!(state.current_offset, 10);
}

#[test]
fn stops_at_a_blank_line() {
    let mut state = LoadState::new();
    let mut words = Vec::new();
    assert!(!feed(&mut state, &mut words, "\n"));
    assert_eq!(state.loaded_terms(), 0);
    assert_eq!(state.last_good_offset, 0);
    assert!(words.is_empty());
}

#[test]
fn counts_bytes_not_chars() {
    let mut state = LoadState::new();
    let mut words = Vec::new();
    assert!(feed(&mut state, &mut words, "1\u{3000}1\n"));
    assert_eq!(state.last_good_offset, 6);
}

#[test]
fn resumes_from_written_lines() {
    let terms = generate_dense_modular_buckets(20);
    let mut state = LoadState::new();
    let mut words = Vec::new();
    let mut bytes = 0u64;
    for (i, &x) in terms.iter().enumerate() {
        let line = format_term_line(i + 1, x);
        let len: u64 = line.iter().map(|c| c.len_utf8() as u64).sum();
        bytes += len;
        assert!(state.accept_line(&mut words, &line, len));
    }
    assert_eq!(state.loaded_terms(), 20);
    assert_eq!(state.last_good_offset, bytes);
    let mut expected = Vec::new();
    for (i, &x) in terms.iter().enumerate() {
        mark_progression(&mut expected, i + 1, x);
    }
    assert_eq!(words, expected);
}

#[test]
fn an_unfinished_last_line_is_not_loaded() {
    let mut state = LoadState::new();
    let mut words = Vec::new();
    assert!(feed(&mut state, &mut words, "1 1\n"));
    assert!(feed(&mut state, &mut words, "2 2\n"));
    assert!(!feed(&mut state, &mut words, "3 3"));
    assert_eq!(state.loaded_terms(), 2);
    assert_eq!(state.current_offset, 11);
    assert_eq!(state.last_good_offset, 8);
    let mut expected = Vec::new();
    mark_progression(&mut expected, 1, 1);
    mark_progression(&mut expected, 2, 2);
    assert_eq!(words, expected);
}

#[test]
fn loading_again_gives_the_same() {
    let lines = ["1 1\n", "2 2\n", "3 3\n", "5 8\n", "4 7\n"];
    let mut state = LoadState::new();
    let mut first = Vec::new();
    let mut kept = 0;
    for line in lines {
        if !feed(&mut state, &mut first, line) {
            break;
        }
        kept += 1;
    }
    assert_eq!(state.loaded_terms(), 3);

    let mut again = LoadState::new();
    let mut second = Vec::new();
    for line in &lines[..kept] {
        assert!(feed(&mut again, &mut second, line));
    }
    assert_eq!(again.loaded_terms(), 3);
    assert_eq!(again.last_good_offset, state.last_good_offset);
    assert_eq!(second, first);
}
