use conversai::markdown::{parse_markdown, segment_events, MarkupEvent, SpannedEvent};

fn event(event: MarkupEvent, offset: usize) -> SpannedEvent {
    SpannedEvent { event, offset }
}

fn text(s: &str, offset: usize) -> SpannedEvent {
    event(MarkupEvent::Text(s.to_string()), offset)
}

#[test]
fn document_without_headings_is_one_level_zero_section() {
    let doc = "just a paragraph";
    let sections = parse_markdown(doc);
    assert_eq!(sections.len(), 1);
    assert_eq!(sections[0].content, "just a paragraph ");
    assert!(sections[0].heading_path.is_empty());
    assert_eq!(sections[0].level, 0);
    assert_eq!(sections[0].start_offset, 0);
    assert_eq!(sections[0].end_offset, doc.len());
}

#[test]
fn empty_document_has_no_section() {
    assert!(parse_markdown("").is_empty());
    assert!(parse_markdown("\n\n   \n").is_empty());
}

#[test]
fn two_top_level_headings_give_two_sections() {
    let doc = "# A\nalpha\n\n# B\nbeta\n";
    let sections = parse_markdown(doc);
    assert_eq!(sections.len(), 2);
    assert_eq!(sections[0].content, "A alpha ");
    assert_eq!(sections[0].heading_path, vec!["A".to_string()]);
    assert_eq!(sections[0].level, 1);
    assert_eq!(sections[0].start_offset, 0);
    assert_eq!(sections[0].end_offset, 11);
    assert_eq!(sections[1].content, "B beta ");
    assert_eq!(sections[1].heading_path, vec!["B".to_string()]);
    assert_eq!(sections[1].level, 1);
    assert_eq!(sections[1].start_offset, 11);
    assert_eq!(sections[1].end_offset, 20);
}

#[test]
fn text_before_the_first_heading_is_its_own_section() {
    let doc = "intro\n\n# A\nalpha\n";
    let sections = parse_markdown(doc);
    assert_eq!(sections.len(), 2);
    assert_eq!(sections[0].content, "intro ");
    assert_eq!(sections[0].level, 0);
    assert!(sections[0].heading_path.is_empty());
    assert_eq!(sections[0].start_offset, 0);
    assert_eq!(sections[0].end_offset, 7);
    assert_eq!(sections[1].start_offset, 7);
    assert_eq!(sections[1].end_offset, doc.len());
}

#[test]
fn nested_headings_extend_and_cut_the_path() {
    let doc = "# A\none\n## B\ntwo\n### C\nthree\n## D\nfour\n# E\nfive\n";
    let sections = parse_markdown(doc);
    assert_eq!(sections.len(), 5);
    assert_eq!(sections[0].heading_path, vec!["A".to_string()]);
    assert_eq!(sections[1].heading_path, vec!["A".to_string(), "B".to_string()]);
    assert_eq!(
        sections[2].heading_path,
        vec!["A".to_string(), "B".to_string(), "C".to_string()]
    );
    assert_eq!(sections[3].heading_path, vec!["A".to_string(), "D".to_string()]);
    assert_eq!(sections[4].heading_path, vec!["E".to_string()]);
    assert_eq!(sections[0].level, 1);
    assert_eq!(sections[1].level, 2);
    assert_eq!(sections[2].level, 3);
    assert_eq!(sections[3].level, 2);
    assert_eq!(sections[4].level, 1);
    let mut i = 0;
    while i < sections.len() {
        assert_eq!(sections[i].heading_path.len(), sections[i].level);
        assert!(sections[i].start_offset <= sections[i].end_offset);
        if i > 0 {
            assert!(sections[i - 1].end_offset <= sections[i].start_offset);
        }
        i += 1;
    }
}

#[test]
fn code_blocks_are_fenced_and_keep_their_lines() {
    let sections = parse_markdown("```\nlet x = 1;\n```\n");
    assert_eq!(sections.len(), 1);
    assert_eq!(sections[0].content, "```\nlet x = 1;\n ```\n");
}

#[test]
fn inline_code_is_wrapped_in_backticks() {
    let sections = parse_markdown("Use `cargo` now");
    assert_eq!(sections.len(), 1);
    assert_eq!(sections[0].content, "Use  `cargo`  now ");
}

#[test]
fn soft_breaks_become_spaces() {
    let sections = parse_markdown("line one\nline two");
    assert_eq!(sections.len(), 1);
    assert_eq!(sections[0].content, "line one  line two ");
}

#[test]
fn heading_without_body_still_closes_with_its_title() {
    let sections = parse_markdown("# Only\n");
    assert_eq!(sections.len(), 1);
    assert_eq!(sections[0].content, "Only ");
    assert_eq!(sections[0].heading_path, vec!["Only".to_string()]);
}

#[test]
fn segment_events_follows_the_event_stream() {
    let events = vec![
        text("intro", 0),
        event(MarkupEvent::HeadingStart(2), 10),
        text("Deep", 13),
        event(MarkupEvent::HeadingEnd, 10),
        event(MarkupEvent::CodeBlockStart, 20),
        text("a", 24),
        event(MarkupEvent::SoftBreak, 25),
        event(MarkupEvent::CodeBlockEnd, 20),
        event(MarkupEvent::HardBreak, 30),
        event(MarkupEvent::Code("x".to_string()), 31),
        event(MarkupEvent::Other, 35),
    ];
    let sections = segment_events(&events, 40);
    assert_eq!(sections.len(), 2);
    assert_eq!(sections[0].content, "intro ");
    assert_eq!(sections[0].level, 0);
    assert_eq!(sections[0].start_offset, 0);
    assert_eq!(sections[0].end_offset, 10);
    // Text behind the heading does not enter the path.
    assert_eq!(sections[1].heading_path, vec!["Deep".to_string()]);
    assert_eq!(sections[1].content, "Deep ```\na \n```\n `x` ");
    assert_eq!(sections[1].level, 2);
    assert_eq!(sections[1].start_offset, 10);
    assert_eq!(sections[1].end_offset, 40);
}

#[test]
fn segment_events_drops_blank_text_between_headings() {
    let events = vec![
        event(MarkupEvent::HeadingStart(1), 0),
        event(MarkupEvent::SoftBreak, 2),
        event(MarkupEvent::HeadingStart(1), 5),
        text("B", 7),
    ];
    let sections = segment_events(&events, 9);
    assert_eq!(sections.len(), 1);
    assert_eq!(sections[0].content, "B ");
    assert_eq!(sections[0].start_offset, 5);
    assert_eq!(sections[0].end_offset, 9);
}

#[test]
fn segment_events_of_no_event_is_empty() {
    assert!(segment_events(&Vec::new(), 0).is_empty());
}

#[test]
fn body_text_does_not_enter_the_heading_path() {
    let sections = parse_markdown("## A\nx\n\ny\n");
    assert_eq!(sections.len(), 1);
    assert_eq!(sections[0].heading_path, vec!["A".to_string()]);
    assert_eq!(sections[0].level, 2);
    assert_eq!(sections[0].content, "A x y ");
}

#[test]
fn every_text_of_a_heading_enters_the_path_up_to_its_level() {
    let deep = parse_markdown("## A *b* c\nbody\n");
    assert_eq!(deep[0].heading_path, vec!["A ".to_string(), "b".to_string()]);
    let top = parse_markdown("# A *b*\nbody\n");
    assert_eq!(top[0].heading_path, vec!["A ".to_string()]);
    assert_eq!(top[0].content, "A  b body ");
}

#[test]
fn only_the_first_section_has_level_zero() {
    let sections = parse_markdown("intro\n\n# A\none\n\n### B\ntwo\n");
    assert_eq!(sections.len(), 3);
    assert_eq!(sections[0].level, 0);
    assert!(sections[0].heading_path.is_empty());
    assert_eq!(sections[1].level, 1);
    assert_eq!(sections[2].level, 3);
    assert_eq!(sections[2].heading_path, vec!["A".to_string(), "B".to_string()]);
}
