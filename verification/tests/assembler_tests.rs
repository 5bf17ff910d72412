use conversai::assembler::assemble;

const MARKER: &str = "\n[Context truncated due to length limits]";

fn parts(texts: &[&str]) -> Vec<String> {
    texts.iter().map(|t| t.to_string()).collect()
}

#[test]
fn assemble_appends_everything_that_fits() {
    assert_eq!(assemble(&parts(&["abcd", "efgh"]), 8), "abcdefgh");
}

#[test]
fn assemble_marks_the_first_part_that_does_not_fit() {
    assert_eq!(assemble(&parts(&["abcd", "efgh", "i"]), 7), format!("abcd{}", MARKER));
}

#[test]
fn assemble_stops_at_the_first_refused_part() {
    let out = assemble(&parts(&["abcd", "toolong", "x"]), 5);
    assert_eq!(out, format!("abcd{}", MARKER));
    assert_eq!(out.matches(MARKER).count(), 1);
}

#[test]
fn assemble_never_exceeds_budget_plus_marker() {
    assert_eq!(MARKER.chars().count(), 41);
    let given = parts(&["# H\n", "aaaa", "bbbb", "# I\n", "cccc", "dddd"]);
    let mut budget = 0;
    while budget <= 30 {
        let out = assemble(&given, budget);
        assert!(out.chars().count() <= budget + 41);
        assert!(out.matches(MARKER).count() <= 1);
        if out.contains(MARKER) {
            assert!(out.ends_with(MARKER));
        }
        budget += 1;
    }
}

#[test]
fn assemble_with_zero_budget_is_the_marker() {
    assert_eq!(assemble(&parts(&["a"]), 0), MARKER);
}

#[test]
fn assemble_of_nothing_is_empty() {
    assert_eq!(assemble(&Vec::new(), 0), "");
}

#[test]
fn assemble_counts_characters_not_bytes() {
    assert_eq!(assemble(&parts(&["\u{e9}\u{e9}\u{e9}"]), 3), "\u{e9}\u{e9}\u{e9}");
}

#[test]
fn assemble_charges_headings_like_any_part() {
    let given = parts(&["# H\n", "abc", "# I\n", "defg"]);
    assert_eq!(assemble(&given, 3), MARKER);
    assert_eq!(assemble(&given, 7), format!("# H\nabc{}", MARKER));
    assert_eq!(assemble(&given, 11), format!("# H\nabc# I\n{}", MARKER));
    assert_eq!(assemble(&given, 15), "# H\nabc# I\ndefg");
}

#[test]
fn assemble_accepts_an_empty_part_at_the_budget() {
    assert_eq!(assemble(&parts(&["abc", ""]), 3), "abc");
}
