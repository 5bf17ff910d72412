use conversai::text::{
    blank, clone_strings, decimal_string, from_chars, join, measure_blank_run, measure_word_run,
    normalize_word,
    same_text, split_fields, split_terms, split_words, to_chars, trim,
};

fn strings(items: &[&str]) -> Vec<String> {
    items.iter().map(|s| s.to_string()).collect()
}

#[test]
fn split_words_breaks_at_any_white_space() {
    assert_eq!(split_words("  alpha\tbeta\n\ngamma  "), strings(&["alpha", "beta", "gamma"]));
}

#[test]
fn split_words_of_blank_text_is_empty() {
    assert_eq!(split_words(" \t\n"), Vec::<String>::new());
    assert_eq!(split_words(""), Vec::<String>::new());
}

#[test]
fn split_words_keeps_punctuation_inside_words() {
    assert_eq!(split_words("it's done, ok?"), strings(&["it's", "done,", "ok?"]));
}

#[test]
fn normalize_word_lowercases_and_strips() {
    assert_eq!(normalize_word("Hello,"), "hello");
    assert_eq!(normalize_word("R2-D2!"), "r2d2");
    assert_eq!(normalize_word("--"), "");
    assert_eq!(normalize_word("\u{c9}t\u{e9}"), "\u{e9}t\u{e9}");
}

#[test]
fn split_terms_drops_words_without_letters_or_digits() {
    assert_eq!(split_terms("The quick -- brown FOX."), strings(&["the", "quick", "brown", "fox"]));
}

#[test]
fn split_terms_keeps_repeats() {
    assert_eq!(split_terms("a A a"), strings(&["a", "a", "a"]));
}

#[test]
fn trim_removes_outer_white_space_only() {
    assert_eq!(trim("  a b \n"), "a b");
    assert_eq!(trim("a"), "a");
    assert_eq!(trim(" \t "), "");
    assert_eq!(trim(""), "");
}

#[test]
fn blank_tells_white_space_from_text() {
    assert!(blank(""));
    assert!(blank(" \n\t"));
    assert!(!blank(" x "));
}

#[test]
fn decimal_string_renders_numbers() {
    assert_eq!(decimal_string(0), "0");
    assert_eq!(decimal_string(7), "7");
    assert_eq!(decimal_string(10), "10");
    assert_eq!(decimal_string(1203), "1203");
    assert_eq!(decimal_string(u64::MAX), "18446744073709551615");
}

#[test]
fn join_puts_separator_between_parts() {
    assert_eq!(join(&strings(&["a", "b", "c"]), " > "), "a > b > c");
    assert_eq!(join(&strings(&["only"]), " > "), "only");
    assert_eq!(join(&Vec::new(), " > "), "");
}

#[test]
fn split_fields_keeps_empty_fields() {
    assert_eq!(split_fields("a,,b,", ','), strings(&["a", "", "b", ""]));
    assert_eq!(split_fields("", ','), strings(&[""]));
    assert_eq!(split_fields("plain", ','), strings(&["plain"]));
}

#[test]
fn chars_round_trip() {
    let chars = to_chars("h\u{e9}llo");
    assert_eq!(chars, vec!['h', '\u{e9}', 'l', 'l', 'o']);
    assert_eq!(from_chars(&chars, 1, 4), "\u{e9}ll");
    assert_eq!(from_chars(&chars, 2, 2), "");
}

#[test]
fn clone_strings_copies_every_string() {
    let given = strings(&["x", "yz"]);
    assert_eq!(clone_strings(&given), given);
}

#[test]
fn measure_blank_run_finds_the_longest_run() {
    assert_eq!(measure_blank_run(""), 0);
    assert_eq!(measure_blank_run("abc"), 0);
    assert_eq!(measure_blank_run("a b"), 1);
    assert_eq!(measure_blank_run("  a \t\n b "), 4);
    assert_eq!(measure_blank_run("   a \tb "), 3);
    assert_eq!(measure_blank_run("a    "), 4);
}

#[test]
fn same_text_compares_characters() {
    assert!(same_text("abc", "abc"));
    assert!(same_text("", ""));
    assert!(!same_text("abc", "abd"));
    assert!(!same_text("abc", "ab"));
}

#[test]
fn measure_word_run_finds_the_longest_run() {
    assert_eq!(measure_word_run(""), 0);
    assert_eq!(measure_word_run("  \n"), 0);
    assert_eq!(measure_word_run("ab cde f"), 3);
    assert_eq!(measure_word_run("a1-b2 c"), 5);
    assert_eq!(measure_word_run("end wordy"), 5);
}
