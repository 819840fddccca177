use word_frequency::counts::{aggregate, aggregate_all, WordCount};
use word_frequency::order::{sort_all, sort_by_count};

fn strings(words: &[&str]) -> Vec<String> {
    words.iter().map(|w| w.to_string()).collect()
}

fn table(pairs: &[(&str, usize)]) -> Vec<WordCount> {
    pairs.iter().map(|p| WordCount { word: p.0.to_string(), count: p.1 }).collect()
}

#[test]
fn aggregate_counts_each_distinct_word() {
    let tokens = strings(&["the", "cat", "sat", "on", "the", "mat"]);
    assert_eq!(
        aggregate(&tokens),
        table(&[("the", 2), ("cat", 1), ("sat", 1), ("on", 1), ("mat", 1)])
    );
}

#[test]
fn aggregate_of_nothing_is_empty() {
    assert_eq!(aggregate(&Vec::new()), Vec::<WordCount>::new());
}

#[test]
fn aggregate_tells_case_apart() {
    let tokens = strings(&["The", "the", "THE", "the"]);
    assert_eq!(aggregate(&tokens), table(&[("The", 1), ("the", 2), ("THE", 1)]));
}

#[test]
fn counts_add_up_to_the_number_of_tokens() {
    let tokens = strings(&["a", "b", "a", "c", "b", "a", "d", "a"]);
    let counted = aggregate(&tokens);
    let sum: usize = counted.iter().map(|e| e.count).sum();
    assert_eq!(sum, tokens.len());
    assert_eq!(counted, table(&[("a", 4), ("b", 2), ("c", 1), ("d", 1)]));
    for entry in &counted {
        assert!(entry.count >= 1);
    }
}

#[test]
fn no_word_is_counted_twice() {
    let tokens = strings(&["x", "y", "x", "z", "y", "x"]);
    let counted = aggregate(&tokens);
    for i in 0..counted.len() {
        for j in 0..i {
            assert_ne!(counted[i].word, counted[j].word);
        }
    }
}

#[test]
fn aggregate_all_makes_one_table_for_each_name() {
    let names = strings(&["a.txt", "b.txt"]);
    let lists = vec![strings(&["x", "x"]), strings(&["y"]), strings(&["unused"])];
    assert_eq!(aggregate_all(&names, &lists), vec![table(&[("x", 2)]), table(&[("y", 1)])]);
}

#[test]
fn sorting_puts_counts_in_ascending_order() {
    let mut list = table(&[("e", 5), ("a", 1), ("d", 4), ("b", 2), ("c", 3)]);
    sort_by_count(&mut list);
    assert_eq!(list, table(&[("a", 1), ("b", 2), ("c", 3), ("d", 4), ("e", 5)]));
}

#[test]
fn sorting_keeps_the_order_of_equal_counts() {
    let mut list = table(&[("the", 2), ("cat", 1), ("sat", 1), ("a", 3), ("on", 1), ("of", 2)]);
    sort_by_count(&mut list);
    assert_eq!(
        list,
        table(&[("cat", 1), ("sat", 1), ("on", 1), ("the", 2), ("of", 2), ("a", 3)])
    );
}

#[test]
fn adjacent_entries_ascend_after_sorting() {
    let mut list = table(&[("q", 9), ("w", 3), ("e", 7), ("r", 3), ("t", 1), ("y", 9), ("u", 0)]);
    let len = list.len();
    sort_by_count(&mut list);
    assert_eq!(list.len(), len);
    for pair in list.windows(2) {
        assert!(pair[0].count <= pair[1].count);
    }
}

#[test]
fn sorting_agrees_with_the_stable_standard_sort() {
    let mut list = table(&[("a", 2), ("b", 1), ("c", 2), ("d", 1), ("e", 0), ("f", 2), ("g", 1)]);
    let mut expected = list.clone();
    expected.sort_by_key(|e| e.count);
    sort_by_count(&mut list);
    assert_eq!(list, expected);
}

#[test]
fn sorting_short_lists_changes_nothing() {
    let mut none: Vec<WordCount> = Vec::new();
    sort_by_count(&mut none);
    assert!(none.is_empty());
    let mut one = table(&[("only", 4)]);
    sort_by_count(&mut one);
    assert_eq!(one, table(&[("only", 4)]));
}

#[test]
fn sort_all_sorts_each_table_in_place() {
    let mut results = vec![table(&[("b", 2), ("a", 1)]), Vec::new(), table(&[("z", 3), ("y", 3), ("x", 1)])];
    sort_all(&mut results);
    assert_eq!(
        results,
        vec![table(&[("a", 1), ("b", 2)]), Vec::new(), table(&[("x", 1), ("z", 3), ("y", 3)])]
    );
}
