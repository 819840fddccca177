use word_frequency::counts::{aggregate, WordCount};
use word_frequency::order::sort_by_count;
use word_frequency::report::{generate_report, push_decimal, report_name, report_text};
use word_frequency::tokenizer::tokenize;

fn decimal(n: usize) -> String {
    let mut text = String::new();
    push_decimal(&mut text, n);
    text
}

#[test]
fn decimal_numerals() {
    assert_eq!(decimal(0), "0");
    assert_eq!(decimal(7), "7");
    assert_eq!(decimal(10), "10");
    assert_eq!(decimal(109), "109");
    assert_eq!(decimal(1234567890), "1234567890");
    assert_eq!(decimal(usize::MAX), format!("{}", usize::MAX));
}

#[test]
fn push_decimal_appends() {
    let mut text = String::from("n = ");
    push_decimal(&mut text, 42);
    assert_eq!(text, "n = 42");
}

#[test]
fn report_name_adds_the_suffix() {
    assert_eq!(report_name("x.txt"), "x.txt_report.txt");
    assert_eq!(report_name(""), "_report.txt");
}

#[test]
fn report_of_an_empty_table_is_the_name_line() {
    assert_eq!(report_text("empty.txt", &Vec::new()), "empty.txt\n");
}

#[test]
fn report_lines_end_with_a_space_and_a_line_feed() {
    let table = vec![
        WordCount { word: "a".to_string(), count: 1 },
        WordCount { word: "bb".to_string(), count: 12 },
    ];
    assert_eq!(report_text("f", &table), "f\na 1 \nbb 12 \n");
}

#[test]
fn end_to_end_report_of_one_file() {
    let tokens = tokenize("the cat sat on the mat");
    let mut table = aggregate(&tokens);
    assert_eq!(table.len(), 5);
    sort_by_count(&mut table);
    let last = table.last().unwrap();
    assert_eq!((last.word.as_str(), last.count), ("the", 2));
    let mut ones: Vec<&str> = table[..4].iter().map(|e| e.word.as_str()).collect();
    assert!(table[..4].iter().all(|e| e.count == 1));
    ones.sort();
    assert_eq!(ones, vec!["cat", "mat", "on", "sat"]);
    assert_eq!(report_name("x.txt"), "x.txt_report.txt");
    assert_eq!(report_text("x.txt", &table), "x.txt\ncat 1 \nsat 1 \non 1 \nmat 1 \nthe 2 \n");
}

#[test]
fn generate_report_pairs_names_with_tables() {
    let names = vec!["a.txt".to_string(), "b.txt".to_string(), "c.txt".to_string()];
    let results = vec![vec![WordCount { word: "w".to_string(), count: 3 }], Vec::new()];
    let reports = generate_report(&names, &results);
    assert_eq!(
        reports,
        vec![
            ("a.txt_report.txt".to_string(), "a.txt\nw 3 \n".to_string()),
            ("b.txt_report.txt".to_string(), "b.txt\n".to_string()),
        ]
    );
}
