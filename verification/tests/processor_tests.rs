use conversai::markdown::{MarkupEvent, SpannedEvent};
use conversai::processor::{MarkdownProcessor, MarkdownSection};

const MARKER: &str = "\n[Context truncated due to length limits]";
const HEADING: &str = "# RELEVANT CONTEXT\n\n";

fn section(id: &str, title: &str, content: &str, tags: &[&str], category: &str) -> MarkdownSection {
    MarkdownSection {
        id: id.to_string(),
        title: title.to_string(),
        content: content.to_string(),
        tags: tags.iter().map(|t| t.to_string()).collect(),
        relevance_bits: 0,
        category: category.to_string(),
    }
}

fn event(event: MarkupEvent) -> SpannedEvent {
    SpannedEvent { event, offset: 0 }
}

#[test]
fn new_processor_is_empty() {
    let processor = MarkdownProcessor::new();
    assert_eq!(processor.get_section_count(), 0);
    assert_eq!(processor.get_index_size(), 0);
    assert!(processor.export_sections().is_empty());
    assert_eq!(processor.get_full_context(), "");
}

#[test]
fn load_markdown_stores_a_section_per_heading() {
    let mut processor = MarkdownProcessor::new();
    processor.load_markdown(
        "# Rollback Procedures\nSteps to undo a release.\n\n# Release Notes\nLine one\nline two\n",
        "knowledge",
    );
    let sections = processor.export_sections();
    assert_eq!(sections.len(), 2);
    assert_eq!(sections[0].id, "knowledge_0");
    assert_eq!(sections[0].title, "Rollback Procedures");
    assert_eq!(sections[0].content, "Steps to undo a release.");
    assert_eq!(sections[0].tags, vec!["rollback".to_string(), "procedures".to_string()]);
    assert_eq!(sections[0].category, "knowledge");
    assert_eq!(sections[0].relevance_bits, 0);
    assert_eq!(sections[1].id, "knowledge_1");
    assert_eq!(sections[1].title, "Release Notes");
    assert_eq!(sections[1].content, "Line one \nline two");
    assert_eq!(sections[1].tags, vec!["release".to_string(), "notes".to_string()]);
    assert_eq!(processor.get_section_count(), 2);
}

#[test]
fn load_markdown_keeps_text_before_the_first_heading_without_id() {
    let mut processor = MarkdownProcessor::new();
    processor.load_markdown("preface\n\n# One\nbody\n", "context");
    let sections = processor.export_sections();
    assert_eq!(sections.len(), 2);
    assert_eq!(sections[0].id, "");
    assert_eq!(sections[0].title, "");
    assert_eq!(sections[0].content, "preface");
    assert_eq!(sections[1].id, "context_1");
    assert_eq!(sections[1].title, "One");
    assert!(sections[1].tags.is_empty());
}

#[test]
fn load_markdown_drops_a_heading_without_body_unless_it_is_last() {
    let mut processor = MarkdownProcessor::new();
    processor.load_markdown("# Empty\n# Full\nbody\n# Last\n", "knowledge");
    let sections = processor.export_sections();
    assert_eq!(sections.len(), 2);
    assert_eq!(sections[0].title, "Full");
    assert_eq!(sections[0].id, "knowledge_0");
    assert_eq!(sections[1].title, "Last");
    assert_eq!(sections[1].content, "");
    assert_eq!(sections[1].id, "knowledge_1");
}

#[test]
fn load_markdown_continues_ids_after_stored_sections() {
    let mut processor = MarkdownProcessor::new();
    processor.load_markdown("# A\none\n", "personal");
    processor.load_markdown("# B\ntwo\n", "context");
    let sections = processor.export_sections();
    assert_eq!(sections[0].id, "personal_0");
    assert_eq!(sections[1].id, "context_1");
}

#[test]
fn load_events_takes_the_last_heading_text_as_title() {
    let mut processor = MarkdownProcessor::new();
    let events = vec![
        event(MarkupEvent::HeadingStart(1)),
        event(MarkupEvent::Text("First".to_string())),
        event(MarkupEvent::Text("Second Title".to_string())),
        event(MarkupEvent::HeadingEnd),
        event(MarkupEvent::Text("body".to_string())),
        event(MarkupEvent::Code("dropped".to_string())),
        event(MarkupEvent::HardBreak),
        event(MarkupEvent::Text("more".to_string())),
    ];
    processor.load_events(&events, "knowledge");
    let sections = processor.export_sections();
    assert_eq!(sections.len(), 1);
    assert_eq!(sections[0].title, "Second Title");
    assert_eq!(sections[0].tags, vec!["second".to_string(), "title".to_string()]);
    assert_eq!(sections[0].content, "body \nmore");
}

#[test]
fn index_size_counts_distinct_normalised_words() {
    let mut processor = MarkdownProcessor::new();
    processor.import_sections(vec![
        section("a", "Alpha Beta", "alpha, ALPHA! gamma --", &[], "knowledge"),
        section("b", "Gamma", "delta", &[], "knowledge"),
    ]);
    // alpha, gamma, beta, delta
    assert_eq!(processor.get_index_size(), 4);
    assert_eq!(processor.get_section_count(), 2);
}

#[test]
fn postings_hold_an_id_for_each_occurrence() {
    let mut processor = MarkdownProcessor::new();
    processor.import_sections(vec![
        section("a", "Alpha Beta", "alpha, ALPHA! gamma --", &[], "knowledge"),
        section("b", "Gamma", "delta", &[], "knowledge"),
    ]);
    assert_eq!(processor.postings("alpha"), vec![0, 0, 0]);
    assert_eq!(processor.postings("gamma"), vec![0, 1]);
    assert_eq!(processor.postings("delta"), vec![1]);
    assert_eq!(processor.postings("zeta"), Vec::<usize>::new());
    assert_eq!(processor.postings("Alpha"), Vec::<usize>::new());
}

#[test]
fn clear_forgets_sections_and_index() {
    let mut processor = MarkdownProcessor::new();
    processor.load_markdown("# A\nwords here\n", "knowledge");
    processor.clear();
    assert_eq!(processor.get_section_count(), 0);
    assert_eq!(processor.get_index_size(), 0);
    assert_eq!(processor.search("words", 5), HEADING);
}

#[test]
fn import_replaces_and_trims() {
    let mut processor = MarkdownProcessor::new();
    processor.load_markdown("# Old\nold text\n", "knowledge");
    processor.import_sections(vec![section("n1", "New", "  fresh text \n", &["new"], "context")]);
    let sections = processor.export_sections();
    assert_eq!(sections.len(), 1);
    assert_eq!(sections[0].id, "n1");
    assert_eq!(sections[0].content, "fresh text");
    assert_eq!(sections[0].tags, vec!["new".to_string()]);
    assert_eq!(processor.search("old", 5), HEADING);
}

#[test]
fn export_then_import_keeps_the_sections() {
    let mut processor = MarkdownProcessor::new();
    processor.load_markdown("# A\nalpha\n\n# B\nbeta\n", "knowledge");
    let exported = processor.export_sections();
    let mut other = MarkdownProcessor::new();
    other.import_sections(exported);
    let again = other.export_sections();
    assert_eq!(again.len(), 2);
    assert_eq!(again[0].id, "knowledge_0");
    assert_eq!(again[1].content, "beta");
    assert_eq!(other.get_index_size(), processor.get_index_size());
    assert_eq!(other.search("beta", 3), processor.search("beta", 3));
}

#[test]
fn title_match_outranks_body_matches() {
    let mut processor = MarkdownProcessor::new();
    processor.load_markdown(
        "# Release Notes\ndeployment rollback deployment\n\n# Rollback Procedures\nSteps to undo a release.\n",
        "knowledge",
    );
    let out = processor.search("deployment rollback", 5);
    assert_eq!(
        out,
        "# RELEVANT CONTEXT\n\n## Rollback Procedures (Relevance: 16.0)\nSteps to undo a release.\n\n## Release Notes (Relevance: 3.0)\ndeployment rollback deployment\n\n"
    );
}

#[test]
fn search_scores_occurrences_title_and_tags() {
    let mut processor = MarkdownProcessor::new();
    processor.import_sections(vec![
        section("s0", "Plain", "cache cache miss", &[], "knowledge"),
        section("s1", "Cache Design", "notes", &["caching", "design"], "knowledge"),
        section("s2", "Other", "cache", &["cacheline", "precache"], "knowledge"),
        section("s3", "Nothing", "unrelated", &[], "knowledge"),
    ]);
    let out = processor.search("cache", 10);
    // s1: 1 occurrence in the title + 10 for the title; "caching" does not hold "cache".
    // s2: 1 occurrence + 5 + 5 for the two tags. s0: 2 occurrences.
    assert_eq!(
        out,
        "# RELEVANT CONTEXT\n\n## Cache Design (Relevance: 11.0)\nnotes\n\n## Other (Relevance: 11.0)\ncache\n\n## Plain (Relevance: 2.0)\ncache cache miss\n\n"
    );
}

#[test]
fn search_weights_categories() {
    let mut processor = MarkdownProcessor::new();
    processor.import_sections(vec![
        section("k", "K", "topic", &[], "knowledge"),
        section("c", "C", "topic", &[], "context"),
        section("m", "M", "topic", &[], "personal"),
    ]);
    let out = processor.search("topic", 10);
    assert_eq!(
        out,
        "# RELEVANT CONTEXT\n\n## M (Relevance: 2.0)\ntopic\n\n## C (Relevance: 1.5)\ntopic\n\n## K (Relevance: 1.0)\ntopic\n\n"
    );
}

#[test]
fn search_keeps_at_most_max_results() {
    let mut processor = MarkdownProcessor::new();
    processor.import_sections(vec![
        section("a", "A", "x", &[], "knowledge"),
        section("b", "B", "x x x", &[], "knowledge"),
        section("c", "C", "x x", &[], "knowledge"),
    ]);
    assert_eq!(
        processor.search("x", 2),
        "# RELEVANT CONTEXT\n\n## B (Relevance: 3.0)\nx x x\n\n## C (Relevance: 2.0)\nx x\n\n"
    );
    assert_eq!(processor.search("x", 0), HEADING);
}

#[test]
fn search_sums_over_query_terms_and_normalises_them() {
    let mut processor = MarkdownProcessor::new();
    processor.import_sections(vec![section("a", "T", "red green red", &[], "knowledge")]);
    assert_eq!(
        processor.search("RED, green! ??", 5),
        "# RELEVANT CONTEXT\n\n## T (Relevance: 3.0)\nred green red\n\n"
    );
}

#[test]
fn search_without_match_is_the_heading() {
    let mut processor = MarkdownProcessor::new();
    processor.import_sections(vec![section("a", "T", "text", &[], "knowledge")]);
    assert_eq!(processor.search("absent", 5), HEADING);
    assert_eq!(processor.search("", 5), HEADING);
}

#[test]
fn search_puts_core_sections_in_front() {
    let mut processor = MarkdownProcessor::new();
    processor.import_sections(vec![
        section("knowledge_0", "Cats", "cats purr", &[], "knowledge"),
        section("personal_identity_1", "Who", "name and age", &[], "personal"),
        section("personal_background_2", "Past", "schools", &[], "personal"),
        section("personal_identity_3", "Who else", "other", &[], "personal"),
    ]);
    let out = processor.search("cats", 1);
    assert_eq!(
        out,
        "# RELEVANT CONTEXT\n\n## Past (Relevance: 100.0)\nschools\n\n## Who (Relevance: 100.0)\nname and age\n\n## Cats (Relevance: 12.0)\ncats purr\n\n"
    );
}

#[test]
fn search_does_not_repeat_a_core_section_that_ranked() {
    let mut processor = MarkdownProcessor::new();
    processor.import_sections(vec![
        section("personal_identity_0", "Who", "name and age", &[], "personal"),
        section("knowledge_1", "Names", "name", &[], "knowledge"),
    ]);
    let out = processor.search("name", 5);
    // "Names" holds "name" once as a word of its content; its title term is
    // "names", though the lowercased title contains "name".
    assert_eq!(
        out,
        "# RELEVANT CONTEXT\n\n## Names (Relevance: 11.0)\nname\n\n## Who (Relevance: 2.0)\nname and age\n\n"
    );
}

#[test]
fn forced_score_exceeds_the_best_computed_score() {
    let mut processor = MarkdownProcessor::new();
    let many = "word ".repeat(120);
    processor.import_sections(vec![
        section("knowledge_0", "Many", &many, &[], "knowledge"),
        section("personal_identity_1", "Who", "me", &[], "personal"),
    ]);
    let out = processor.search("word", 5);
    assert!(out.starts_with("# RELEVANT CONTEXT\n\n## Who (Relevance: 120.5)\nme\n\n## Many (Relevance: 120.0)\n"));
}

#[test]
fn search_truncates_before_the_block_that_does_not_fit() {
    let mut processor = MarkdownProcessor::new();
    processor.import_sections(vec![
        section("a", "A", "x x", &[], "knowledge"),
        section("b", "B", "x", &[], "knowledge"),
    ]);
    // The heading is 20 characters, "## A (Relevance: 2.0)\nx x\n\n" is 27 and
    // "## B (Relevance: 1.0)\nx\n\n" is 25.
    processor.set_max_context_length(47);
    assert_eq!(
        processor.search("x", 5),
        format!("{}## A (Relevance: 2.0)\nx x\n\n{}", HEADING, MARKER)
    );
    processor.set_max_context_length(46);
    assert_eq!(processor.search("x", 5), format!("{}{}", HEADING, MARKER));
    processor.set_max_context_length(20);
    assert_eq!(processor.search("x", 5), format!("{}{}", HEADING, MARKER));
    processor.set_max_context_length(19);
    assert_eq!(processor.search("x", 5), MARKER);
    processor.set_max_context_length(0);
    assert_eq!(processor.search("x", 5), MARKER);
    processor.set_max_context_length(72);
    assert_eq!(
        processor.search("x", 5),
        format!("{}## A (Relevance: 2.0)\nx x\n\n## B (Relevance: 1.0)\nx\n\n", HEADING)
    );
    processor.set_max_context_length(71);
    assert_eq!(
        processor.search("x", 5),
        format!("{}## A (Relevance: 2.0)\nx x\n\n{}", HEADING, MARKER)
    );
}

#[test]
fn search_leaves_the_session_unchanged() {
    let mut processor = MarkdownProcessor::new();
    processor.load_markdown("# A\nalpha\n", "knowledge");
    let first = processor.search("alpha", 5);
    let second = processor.search("alpha", 5);
    assert_eq!(first, second);
    assert_eq!(processor.get_section_count(), 1);
}

#[test]
fn full_context_groups_by_category_in_fixed_order() {
    let mut processor = MarkdownProcessor::new();
    processor.import_sections(vec![
        section("k0", "K0", "k zero", &[], "knowledge"),
        section("me0", "Me0", "p zero", &[], "personal"),
        section("x0", "X0", "left out", &[], "misc"),
        section("k1", "K1", "k one", &[], "knowledge"),
        section("me1", "Me1", "p one", &[], "personal"),
    ]);
    assert_eq!(
        processor.get_full_context(),
        "\n# PERSONAL INFORMATION\n\n## Me0\np zero\n\n## Me1\np one\n\n\n# KNOWLEDGE INFORMATION\n\n## K0\nk zero\n\n## K1\nk one\n\n"
    );
}

#[test]
fn full_context_truncates_under_the_budget() {
    let mut processor = MarkdownProcessor::new();
    processor.import_sections(vec![
        section("me0", "Me0", "abc", &[], "personal"),
        section("c0", "C0", "defgh", &[], "context"),
        section("k0", "K0", "ij", &[], "knowledge"),
    ]);
    // The personal heading is 25 characters and its block 12; the context
    // heading is 24 and its block 13; the knowledge heading is 26 and its
    // block 10.
    processor.set_max_context_length(0);
    assert_eq!(processor.get_full_context(), MARKER);
    processor.set_max_context_length(36);
    assert_eq!(processor.get_full_context(), format!("\n# PERSONAL INFORMATION\n\n{}", MARKER));
    processor.set_max_context_length(73);
    assert_eq!(
        processor.get_full_context(),
        format!("\n# PERSONAL INFORMATION\n\n## Me0\nabc\n\n\n# CONTEXT INFORMATION\n\n{}", MARKER)
    );
    processor.set_max_context_length(99);
    assert_eq!(
        processor.get_full_context(),
        format!(
            "\n# PERSONAL INFORMATION\n\n## Me0\nabc\n\n\n# CONTEXT INFORMATION\n\n## C0\ndefgh\n\n{}",
            MARKER
        )
    );
    processor.set_max_context_length(110);
    assert_eq!(
        processor.get_full_context(),
        "\n# PERSONAL INFORMATION\n\n## Me0\nabc\n\n\n# CONTEXT INFORMATION\n\n## C0\ndefgh\n\n\n# KNOWLEDGE INFORMATION\n\n## K0\nij\n\n"
    );
}

#[test]
fn duplicate_copies_a_section() {
    let given = section("id", "T", "c", &["t1", "t2"], "personal");
    let copy = given.duplicate();
    assert_eq!(copy.id, "id");
    assert_eq!(copy.title, "T");
    assert_eq!(copy.content, "c");
    assert_eq!(copy.tags, vec!["t1".to_string(), "t2".to_string()]);
    assert_eq!(copy.category, "personal");
}

#[test]
fn rendered_context_stays_within_budget_and_marker() {
    let mut processor = MarkdownProcessor::new();
    processor.import_sections(vec![
        section("personal_identity_0", "Who", "name and age", &[], "personal"),
        section("c", "Topic", "topic topic", &[], "context"),
        section("k", "Other", "topic", &[], "knowledge"),
    ]);
    let mut budget = 0;
    while budget <= 160 {
        processor.set_max_context_length(budget);
        for out in [processor.search("topic", 5), processor.get_full_context()] {
            assert!(out.chars().count() <= budget + 41);
            assert!(out.matches(MARKER).count() <= 1);
            if out.contains(MARKER) {
                assert!(out.ends_with(MARKER));
            }
        }
        budget += 1;
    }
}
