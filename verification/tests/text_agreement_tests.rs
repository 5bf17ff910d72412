use conversai::text::{
    blank, decimal_string, join, normalize_word, split_fields, split_terms, split_words, trim,
};
use conversai::utils::{to_hex, truncate_text};

fn samples() -> Vec<String> {
    vec![
        "".to_string(),
        " ".to_string(),
        "a".to_string(),
        "  leading and trailing  ".to_string(),
        "tabs\tand\nnew\r\nlines".to_string(),
        "non\u{a0}breaking\u{2003}and\u{3000}wide".to_string(),
        "\u{2028}line\u{2029}separators\u{85}".to_string(),
        "zero\u{200b}width is no space".to_string(),
        "MiXeD Case, With: punctuation! (and) [brackets]".to_string(),
        "\u{130}stanbul \u{3a3}\u{3a3} \u{df}tra\u{df}e".to_string(),
        "digits 123 \u{663}\u{664} and_underscore".to_string(),
        "emoji \u{1F600} and \u{e9}\u{301} accents".to_string(),
        ",,a,,b,,".to_string(),
        "   ".to_string(),
    ]
}

#[test]
fn split_words_agrees_with_split_whitespace() {
    for text in samples() {
        let expected: Vec<String> = text.split_whitespace().map(|w| w.to_string()).collect();
        assert_eq!(split_words(&text), expected, "text {:?}", text);
    }
}

#[test]
fn trim_agrees_with_str_trim() {
    for text in samples() {
        assert_eq!(trim(&text), text.trim(), "text {:?}", text);
        assert_eq!(blank(&text), text.trim().is_empty(), "text {:?}", text);
    }
}

#[test]
fn normalize_word_agrees_with_lowercase_then_filter() {
    for text in samples() {
        for word in text.split_whitespace() {
            let expected: String =
                word.to_lowercase().chars().filter(|c| c.is_alphanumeric()).collect();
            assert_eq!(normalize_word(word), expected, "word {:?}", word);
        }
    }
}

#[test]
fn split_terms_agrees_with_the_iterator_chain() {
    for text in samples() {
        let expected: Vec<String> = text
            .split_whitespace()
            .map(|w| w.to_lowercase().chars().filter(|c| c.is_alphanumeric()).collect())
            .filter(|w: &String| !w.is_empty())
            .collect();
        assert_eq!(split_terms(&text), expected, "text {:?}", text);
    }
}

#[test]
fn split_fields_agrees_with_str_split() {
    for text in samples() {
        let expected: Vec<String> = text.split(',').map(|f| f.to_string()).collect();
        assert_eq!(split_fields(&text, ','), expected, "text {:?}", text);
    }
}

#[test]
fn join_agrees_with_slice_join() {
    for text in samples() {
        let parts: Vec<String> = text.split(' ').map(|p| p.to_string()).collect();
        assert_eq!(join(&parts, " > "), parts.join(" > "), "text {:?}", text);
    }
}

#[test]
fn decimal_string_agrees_with_to_string() {
    for n in [0u64, 1, 9, 10, 11, 99, 100, 101, 12345, 4294967295, 4294967296, u64::MAX - 1] {
        assert_eq!(decimal_string(n), n.to_string());
    }
}

#[test]
fn to_hex_agrees_with_lower_hex_formatting() {
    let bytes: Vec<u8> = (0..=255).collect();
    let expected: String = bytes.iter().map(|b| format!("{:02x}", b)).collect();
    assert_eq!(to_hex(&bytes), expected);
}

#[test]
fn truncate_text_agrees_with_take_and_ellipsis() {
    for text in samples() {
        for max_chars in [3usize, 4, 5, 8, 16, 64] {
            let expected = if text.len() <= max_chars {
                text.clone()
            } else {
                let mut cut: String = text.chars().take(max_chars - 3).collect();
                cut.push_str("...");
                cut
            };
            assert_eq!(truncate_text(&text, max_chars), expected, "text {:?}", text);
        }
    }
}
