use word_frequency::tokenizer::{is_whitespace, split_words, tokenize};

fn strings(words: &[&str]) -> Vec<String> {
    words.iter().map(|w| w.to_string()).collect()
}

#[test]
fn punctuation_becomes_space_but_closing_parenthesis_stays() {
    assert_eq!(tokenize("Hello, World! (foo)"), strings(&["Hello", "World", "foo)"]));
}

#[test]
fn separators_between_letters_cut_the_word() {
    // Without the replacement of separators this would be one token.
    assert_eq!(tokenize("a,b"), strings(&["a", "b"]));
    assert_eq!(tokenize("x-y_z"), strings(&["x", "y", "z"]));
}

#[test]
fn apostrophes_and_digits_survive() {
    assert_eq!(tokenize("don't stop 24x7"), strings(&["don't", "stop", "24x7"]));
}

#[test]
fn empty_and_blank_texts_have_no_tokens() {
    assert_eq!(tokenize(""), Vec::<String>::new());
    assert_eq!(tokenize("   \t\n "), Vec::<String>::new());
    assert_eq!(tokenize("...!?;"), Vec::<String>::new());
}

#[test]
fn tokens_keep_their_order_and_case() {
    assert_eq!(
        tokenize("The cat;the Cat\nTHE cat"),
        strings(&["The", "cat", "the", "Cat", "THE", "cat"])
    );
}

#[test]
fn letters_outside_ascii_are_separators() {
    assert_eq!(tokenize("caf\u{e9} au lait"), strings(&["caf", "au", "lait"]));
    assert_eq!(tokenize("na\u{ef}ve"), strings(&["na", "ve"]));
}

#[test]
fn digits_outside_ascii_are_separators() {
    assert_eq!(tokenize("1\u{663}2"), strings(&["1", "2"]));
}

#[test]
fn every_kind_of_white_space_cuts() {
    assert_eq!(
        tokenize("a\u{a0}b\u{3000}c\u{2003}d\u{85}e\u{b}f\u{c}g\rh"),
        strings(&["a", "b", "c", "d", "e", "f", "g", "h"])
    );
}

#[test]
fn tokenizing_joined_tokens_changes_nothing() {
    for text in ["Hello, World! (foo)", "  a  b,c\n\nd'e )f( ", "", "x", "caf\u{e9} 1\u{663}2"] {
        let first = tokenize(text);
        let again = tokenize(&first.join(" "));
        assert_eq!(again, first);
    }
}

#[test]
fn no_token_is_empty() {
    for token in tokenize(" ,a,, b ,") {
        assert!(!token.is_empty());
    }
}

#[test]
fn split_words_cuts_only_at_white_space() {
    assert_eq!(split_words("a,b  c"), strings(&["a,b", "c"]));
    assert_eq!(split_words(" lead and trail "), strings(&["lead", "and", "trail"]));
    assert_eq!(split_words("one"), strings(&["one"]));
    assert_eq!(split_words(""), Vec::<String>::new());
}

#[test]
fn split_words_agrees_with_the_standard_library() {
    for text in ["a b", "\t a\u{2028}b \u{205f} c\u{1680}", "x\u{200b}y", "\u{202f}q\u{2029}"] {
        let expected: Vec<String> = text.split_whitespace().map(String::from).collect();
        assert_eq!(split_words(text), expected);
    }
}

#[test]
fn white_space_is_what_the_standard_library_says() {
    for n in 0u32..0x3100 {
        if let Some(c) = char::from_u32(n) {
            assert_eq!(is_whitespace(c), c.is_whitespace());
        }
    }
    assert!(!is_whitespace('\u{200b}'));
    assert!(!is_whitespace('a'));
}

#[test]
fn characters_beyond_the_basic_plane_are_separators() {
    assert_eq!(tokenize("a\u{1f600}b\u{0}c"), strings(&["a", "b", "c"]));
    assert_eq!(tokenize("[x]{y}<z>(w)"), strings(&["x", "y", "z", "w)"]));
}
