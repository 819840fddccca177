use word_frequency::dispatch::{collect_in_order, outcome_of, tokenize_all, CollectError, Outcome, THREAD_POOL};
use word_frequency::files::clean_filelist;

fn strings(words: &[&str]) -> Vec<String> {
    words.iter().map(|w| w.to_string()).collect()
}

fn tokens(words: &[&str]) -> Outcome {
    Outcome::Tokens(strings(words))
}

#[test]
fn results_come_back_in_file_order() {
    // a.txt is slowest and c.txt fastest: the arrivals are c, b, a.
    let names = strings(&["a.txt", "b.txt", "c.txt"]);
    let arrivals = vec![(2, tokens(&["from", "c"])), (1, tokens(&["from", "b"])), (0, tokens(&["from", "a"]))];
    let out = collect_in_order(names.len(), arrivals).unwrap();
    assert_eq!(out, vec![tokens(&["from", "a"]), tokens(&["from", "b"]), tokens(&["from", "c"])]);
}

#[test]
fn a_failed_file_keeps_its_slot() {
    let arrivals = vec![(1, Outcome::Unreadable), (0, tokens(&["ok"]))];
    assert_eq!(collect_in_order(2, arrivals), Ok(vec![tokens(&["ok"]), Outcome::Unreadable]));
}

#[test]
fn no_files_give_no_results() {
    assert_eq!(collect_in_order(0, Vec::new()), Ok(Vec::new()));
}

#[test]
fn an_unknown_slot_is_reported() {
    let arrivals = vec![(0, tokens(&["a"])), (5, tokens(&["b"])), (1, tokens(&["c"]))];
    assert_eq!(collect_in_order(2, arrivals), Err(CollectError::OutOfRange { position: 1, index: 5 }));
}

#[test]
fn a_slot_named_twice_is_reported() {
    let arrivals = vec![(1, tokens(&["a"])), (0, tokens(&["b"])), (1, tokens(&["c"]))];
    assert_eq!(collect_in_order(3, arrivals), Err(CollectError::Duplicate { position: 2, index: 1 }));
}

#[test]
fn the_first_empty_slot_is_reported() {
    let arrivals = vec![(3, tokens(&["d"])), (0, tokens(&["a"]))];
    assert_eq!(collect_in_order(4, arrivals), Err(CollectError::Missing { index: 1 }));
    assert_eq!(collect_in_order(1, Vec::new()), Err(CollectError::Missing { index: 0 }));
}

#[test]
fn the_first_offending_arrival_wins() {
    let arrivals = vec![(0, tokens(&[])), (0, tokens(&[])), (9, tokens(&[]))];
    assert_eq!(collect_in_order(3, arrivals), Err(CollectError::Duplicate { position: 1, index: 0 }));
}

#[test]
fn outcome_of_a_loaded_text_is_its_tokens() {
    assert_eq!(outcome_of(Some("Hello, World! (foo)")), tokens(&["Hello", "World", "foo)"]));
    assert_eq!(outcome_of(Some("")), tokens(&[]));
    assert_eq!(outcome_of(None), Outcome::Unreadable);
}

#[test]
fn tokenize_all_keeps_the_order_of_the_texts() {
    let texts = strings(&["one, two", "", "three"]);
    assert_eq!(tokenize_all(&texts), vec![strings(&["one", "two"]), Vec::new(), strings(&["three"])]);
}

#[test]
fn concurrent_collection_agrees_with_the_sequential_baseline() {
    let texts = strings(&["a b. c", "d (e) f", "g'h"]);
    let baseline = tokenize_all(&texts);
    let arrivals = vec![
        (1, outcome_of(Some(&texts[1]))),
        (2, outcome_of(Some(&texts[2]))),
        (0, outcome_of(Some(&texts[0]))),
    ];
    let collected = collect_in_order(texts.len(), arrivals).unwrap();
    let expected: Vec<Outcome> = baseline.into_iter().map(Outcome::Tokens).collect();
    assert_eq!(collected, expected);
}

#[test]
fn the_default_pool_has_four_workers() {
    assert_eq!(THREAD_POOL, 4);
}

#[test]
fn missing_files_are_left_out() {
    let names = strings(&["a.txt", "nowhere.txt", "b.txt"]);
    let kept = clean_filelist(names, &vec![true, false, true]);
    assert_eq!(kept, strings(&["a.txt", "b.txt"]));
    let arrivals = vec![(1, tokens(&["b"])), (0, tokens(&["a"]))];
    let results = collect_in_order(kept.len(), arrivals).unwrap();
    assert_eq!(results.len(), 2);
}

#[test]
fn names_without_a_flag_count_as_missing() {
    assert_eq!(clean_filelist(strings(&["a", "b", "c"]), &vec![true]), strings(&["a"]));
    assert_eq!(clean_filelist(strings(&["a", "b"]), &vec![false, true, true]), strings(&["b"]));
    assert_eq!(clean_filelist(Vec::new(), &vec![true]), Vec::<String>::new());
}

#[test]
fn test_native_inline() {
    let native = strings(&["first file, first line", "second file"]);
    let _ = tokenize_all(&native);
}

#[test]
fn test_slurp_inline() {
    let native = strings(&["first file, first line", "second file"]);
    let lists = tokenize_all(&native);
    assert_eq!(lists.len(), native.len());
}

#[test]
fn test_native_crossbeam() {
    let native = strings(&["first file", "second file"]);
    let arrivals = vec![(1, outcome_of(Some(&native[1]))), (0, outcome_of(Some(&native[0])))];
    let _ = collect_in_order(native.len(), arrivals);
}

#[test]
fn test_slurp_crossbeam() {
    let native = strings(&["first file", "second file"]);
    let arrivals = vec![(0, outcome_of(Some(&native[0]))), (1, outcome_of(Some(&native[1])))];
    let _ = collect_in_order(native.len(), arrivals);
}

#[test]
fn test_native_pool() {
    let native = strings(&["only file"]);
    let arrivals = vec![(0, outcome_of(Some(&native[0])))];
    let _ = collect_in_order(native.len(), arrivals);
}

#[test]
fn test_slurp_pool() {
    let native: Vec<String> = Vec::new();
    let _ = collect_in_order(native.len(), Vec::new());
}
