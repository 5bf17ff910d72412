//! Segmenter: turns the block-level events of a markdown document into an
//! ordered sequence of sections, each with its heading path and span.

use crate::text::{blank, clone_strings, is_blank, texts};
use pulldown_cmark::{Event, Parser, Tag};
use vstd::prelude::*;
use vstd::string::StringExecFns;

verus! {

/// A markup construct that the segmenter distinguishes.
pub enum MarkupEvent {
    /// A heading opens; the payload is its depth, 1 for the outermost.
    HeadingStart(usize),
    /// A heading closes.
    HeadingEnd,
    /// A run of inline text.
    Text(String),
    /// An inline code span.
    Code(String),
    /// A code block opens.
    CodeBlockStart,
    /// A code block closes.
    CodeBlockEnd,
    /// A line break that renders as a space.
    SoftBreak,
    /// A forced line break.
    HardBreak,
    /// Any other construct; the segmenter ignores it.
    Other,
}

/// Mathematical form of a `MarkupEvent`.
pub enum EventModel {
    HeadingStart(nat),
    HeadingEnd,
    Text(Seq<char>),
    Code(Seq<char>),
    CodeBlockStart,
    CodeBlockEnd,
    SoftBreak,
    HardBreak,
    Other,
}

impl View for MarkupEvent {
    type V = EventModel;

    open spec fn view(&self) -> EventModel {
        match self {
            MarkupEvent::HeadingStart(level) => EventModel::HeadingStart(*level as nat),
            MarkupEvent::HeadingEnd => EventModel::HeadingEnd,
            MarkupEvent::Text(text) => EventModel::Text(text@),
            MarkupEvent::Code(code) => EventModel::Code(code@),
            MarkupEvent::CodeBlockStart => EventModel::CodeBlockStart,
            MarkupEvent::CodeBlockEnd => EventModel::CodeBlockEnd,
            MarkupEvent::SoftBreak => EventModel::SoftBreak,
            MarkupEvent::HardBreak => EventModel::HardBreak,
            MarkupEvent::Other => EventModel::Other,
        }
    }
}

/// An event together with the byte offset in the document at which its
/// source begins.
pub struct SpannedEvent {
    pub event: MarkupEvent,
    pub offset: usize,
}

/// Mathematical form of a `SpannedEvent`.
pub struct SpannedEventModel {
    pub event: EventModel,
    pub offset: nat,
}

impl View for SpannedEvent {
    type V = SpannedEventModel;

    open spec fn view(&self) -> SpannedEventModel {
        SpannedEventModel { event: self.event@, offset: self.offset as nat }
    }
}

/// The models of a sequence of events.
pub open spec fn event_models(events: Seq<SpannedEvent>) -> Seq<SpannedEventModel> {
    Seq::new(events.len(), |i: int| events[i]@)
}

/// A contiguous run of document text under one heading context.
pub struct MarkdownSection {
    pub content: String,
    pub heading_path: Vec<String>,
    pub level: usize,
    pub start_offset: usize,
    pub end_offset: usize,
}

/// Mathematical form of a `MarkdownSection`.
pub struct SectionModel {
    pub content: Seq<char>,
    pub heading_path: Seq<Seq<char>>,
    pub level: nat,
    pub start_offset: nat,
    pub end_offset: nat,
}

impl View for MarkdownSection {
    type V = SectionModel;

    open spec fn view(&self) -> SectionModel {
        SectionModel {
            content: self.content@,
            heading_path: texts(self.heading_path@),
            level: self.level as nat,
            start_offset: self.start_offset as nat,
            end_offset: self.end_offset as nat,
        }
    }
}

/// The models of a sequence of sections.
pub open spec fn section_models(sections: Seq<MarkdownSection>) -> Seq<SectionModel> {
    Seq::new(sections.len(), |i: int| sections[i]@)
}

/// What the segmenter remembers between two events.
pub struct SegmenterState {
    /// Sections closed so far.
    pub sections: Seq<SectionModel>,
    /// Heading titles in effect, outermost first.
    pub path: Seq<Seq<char>>,
    /// Text gathered since the last heading opened.
    pub content: Seq<char>,
    /// Depth of the last heading, 0 before the first.
    pub level: nat,
    /// Offset at which the text being gathered began.
    pub start: nat,
    /// Whether a code block is open.
    pub in_code_block: bool,
    /// Whether a heading is open.
    pub in_heading: bool,
}

/// The state before any event.
pub open spec fn segmenter_start() -> SegmenterState {
    SegmenterState {
        sections: Seq::empty(),
        path: Seq::empty(),
        content: Seq::empty(),
        level: 0,
        start: 0,
        in_code_block: false,
        in_heading: false,
    }
}

/// The section that closes when the gathered text of `state` ends at `end`.
pub open spec fn closing_section(state: SegmenterState, end: nat) -> SectionModel {
    SectionModel {
        content: state.content,
        heading_path: state.path,
        level: state.level,
        start_offset: state.start,
        end_offset: end,
    }
}

/// The closed sections of `state` once its gathered text is closed at `end`:
/// text that is blank closes no section.
pub open spec fn sections_closed_at(state: SegmenterState, end: nat) -> Seq<SectionModel> {
    if is_blank(state.content) {
        state.sections
    } else {
        state.sections.push(closing_section(state, end))
    }
}

/// The heading path once a heading of depth `level` opens: entries are
/// dropped from the inner end until fewer than `level` remain.
pub open spec fn path_under(path: Seq<Seq<char>>, level: nat) -> Seq<Seq<char>> {
    if path.len() < level {
        path
    } else {
        path.take(level - 1)
    }
}

/// The state after one more event. A heading closes the text gathered so
/// far under the path and level in effect before it, cuts the path, and
/// starts new text at its offset. Text joins the gathered text with a space
/// behind it; the text of an open heading also enters the path, while that
/// is shorter than the level.
/// Inline code joins it between backticks, a code block between fence
/// lines, and a line break as a space, or as a line feed inside a code
/// block.
pub open spec fn segmenter_step(state: SegmenterState, event: SpannedEventModel) -> SegmenterState {
    match event.event {
        EventModel::HeadingStart(level) => SegmenterState {
            sections: sections_closed_at(state, event.offset),
            path: path_under(state.path, level),
            content: Seq::empty(),
            level: level,
            start: event.offset,
            in_code_block: state.in_code_block,
            in_heading: true,
        },
        EventModel::HeadingEnd => SegmenterState { in_heading: false, ..state },
        EventModel::Text(text) => SegmenterState {
            path: if state.in_heading && state.path.len() < state.level {
                state.path.push(text)
            } else {
                state.path
            },
            content: state.content + text + seq![' '],
            ..state
        },
        EventModel::Code(code) => SegmenterState {
            content: state.content + seq!['`'] + code + seq!['`', ' '],
            ..state
        },
        EventModel::CodeBlockStart => SegmenterState {
            content: state.content + seq!['`', '`', '`', '\n'],
            in_code_block: true,
            ..state
        },
        EventModel::CodeBlockEnd => SegmenterState {
            content: state.content + seq!['`', '`', '`', '\n'],
            in_code_block: false,
            ..state
        },
        EventModel::SoftBreak | EventModel::HardBreak => SegmenterState {
            content: state.content.push(if state.in_code_block { '\n' } else { ' ' }),
            ..state
        },
        EventModel::Other => state,
    }
}

/// The state after all of `events`, taken in order.
pub open spec fn segmenter_scan(events: Seq<SpannedEventModel>) -> SegmenterState
    decreases events.len(),
{
    if events.len() == 0 {
        segmenter_start()
    } else {
        segmenter_step(segmenter_scan(events.drop_last()), events.last())
    }
}

/// The sections of a document of `doc_len` bytes whose events are `events`:
/// those closed by headings, then the one closed by the end of input.
pub open spec fn segments(events: Seq<SpannedEventModel>, doc_len: nat) -> Seq<SectionModel> {
    sections_closed_at(segmenter_scan(events), doc_len)
}

/// Whether every heading of `events` has a depth of at least 1.
pub open spec fn headings_have_depth(events: Seq<SpannedEventModel>) -> bool {
    forall|i: int|
        0 <= i < events.len() ==> (#[trigger] events[i].event matches EventModel::HeadingStart(
            level,
        ) ==> level >= 1)
}

/// Whether `title` is the text of an event of `events` that stands inside
/// a heading.
pub open spec fn is_heading_text(events: Seq<SpannedEventModel>, title: Seq<char>) -> bool {
    exists|i: int|
        0 <= i < events.len() && (#[trigger] events[i]).event == EventModel::Text(title)
            && segmenter_scan(events.take(i)).in_heading
}

/// Whether every entry of `path` is the text of a heading of `events`.
pub open spec fn titles_only(path: Seq<Seq<char>>, events: Seq<SpannedEventModel>) -> bool {
    forall|k: int| 0 <= k < path.len() ==> is_heading_text(events, #[trigger] path[k])
}

/// Whether a section has no more path entries than its level, and content
/// that is not blank.
spec fn section_sound(section: SectionModel) -> bool {
    section.heading_path.len() <= section.level && !is_blank(section.content)
}

/// Whether a section of the document with the events `events` has content
/// that is not blank, no more path entries than its level, and in its path
/// nothing but texts of headings.
pub open spec fn section_well_formed(
    section: SectionModel,
    events: Seq<SpannedEventModel>,
) -> bool {
    &&& section.heading_path.len() <= section.level
    &&& !is_blank(section.content)
    &&& titles_only(section.heading_path, events)
}

/// Whether the headings of `events` begin at offsets that do not decrease
/// and do not exceed `doc_len`.
pub open spec fn headings_ascend(events: Seq<SpannedEventModel>, doc_len: nat) -> bool {
    &&& forall|i: int|
        0 <= i < events.len() && (#[trigger] events[i]).event is HeadingStart ==> events[i].offset
            <= doc_len
    &&& forall|i: int, j: int|
        0 <= i < j < events.len() && (#[trigger] events[i]).event is HeadingStart && (
        #[trigger] events[j]).event is HeadingStart ==> events[i].offset <= events[j].offset
}

/// Whether the spans of `sections` follow each other: each begins no later
/// than it ends, and no earlier than the one before it ends.
pub open spec fn spans_ascend(sections: Seq<SectionModel>) -> bool {
    &&& forall|i: int|
        0 <= i < sections.len() ==> (#[trigger] sections[i]).start_offset
            <= sections[i].end_offset
    &&& forall|i: int|
        0 <= i < sections.len() - 1 ==> (#[trigger] sections[i]).end_offset <= sections[i
            + 1].start_offset
}

/// What holds of the segmenter's state after any events: the path is no
/// longer than the level, every closed section is well formed, and, where
/// the headings ascend, so do the spans, up to the start of the text being
/// gathered.
spec fn scan_invariant(
    state: SegmenterState,
    events: Seq<SpannedEventModel>,
    doc_len: nat,
) -> bool {
    &&& state.path.len() <= state.level
    &&& forall|i: int|
        0 <= i < state.sections.len() ==> section_sound(#[trigger] state.sections[i])
    &&& headings_ascend(events, doc_len) ==> {
        &&& spans_ascend(state.sections)
        &&& state.start <= doc_len
        &&& state.sections.len() > 0 ==> state.sections.last().end_offset <= state.start
        &&& forall|i: int|
            0 <= i < events.len() && (#[trigger] events[i]).event is HeadingStart
                ==> events[i].offset <= state.start
    }
}

proof fn lemma_scan_invariant(events: Seq<SpannedEventModel>, doc_len: nat)
    requires
        headings_have_depth(events),
    ensures
        scan_invariant(segmenter_scan(events), events, doc_len),
    decreases events.len(),
{
    if events.len() > 0 {
        let earlier = events.drop_last();
        let before = segmenter_scan(earlier);
        let after = segmenter_scan(events);
        let event = events.last();
        assert forall|i: int| 0 <= i < earlier.len() implies (#[trigger] earlier[i])
            == events[i] by {}
        assert(headings_have_depth(earlier)) by {
            assert forall|i: int| 0 <= i < earlier.len() implies (
            #[trigger] earlier[i].event matches EventModel::HeadingStart(level) ==> level
                >= 1) by {
                assert(earlier[i] == events[i]);
                assert(events[i].event matches EventModel::HeadingStart(level) ==> level >= 1);
            }
        }
        lemma_scan_invariant(earlier, doc_len);
        if headings_ascend(events, doc_len) {
            assert(headings_ascend(earlier, doc_len)) by {
                assert forall|i: int|
                    0 <= i < earlier.len() && (
                    #[trigger] earlier[i]).event is HeadingStart implies earlier[i].offset
                    <= doc_len by {
                    assert(earlier[i] == events[i]);
                }
                assert forall|i: int, j: int|
                    0 <= i < j < earlier.len() && (#[trigger] earlier[i]).event is HeadingStart && (
                    #[trigger] earlier[j]).event is HeadingStart implies earlier[i].offset
                    <= earlier[j].offset by {
                    assert(earlier[i] == events[i]);
                    assert(earlier[j] == events[j]);
                }
            }
        }
        match event.event {
            EventModel::HeadingStart(level) => {
                assert(events[events.len() - 1].event matches EventModel::HeadingStart(l) ==> l
                    >= 1);
                assert(after.path.len() < level);
                assert forall|i: int| 0 <= i < after.sections.len() implies section_sound(
                    #[trigger] after.sections[i],
                ) by {
                    if i < before.sections.len() {
                        assert(after.sections[i] == before.sections[i]);
                    }
                }
                if headings_ascend(events, doc_len) {
                    assert(before.start <= event.offset) by {
                        if exists|i: int|
                            0 <= i < earlier.len() && (#[trigger] earlier[i]).event is HeadingStart
                                && earlier[i].offset == before.start {
                            let i = choose|i: int|
                                0 <= i < earlier.len() && (
                                #[trigger] earlier[i]).event is HeadingStart && earlier[i].offset
                                    == before.start;
                            assert(events[i] == earlier[i]);
                            assert(events[i].offset <= events[events.len() - 1].offset);
                        } else {
                            lemma_start_is_a_heading(earlier);
                        }
                    }
                    assert(spans_ascend(after.sections)) by {
                        assert forall|i: int| 0 <= i < after.sections.len() implies (
                        #[trigger] after.sections[i]).start_offset
                            <= after.sections[i].end_offset by {
                            if i < before.sections.len() {
                                assert(after.sections[i] == before.sections[i]);
                            }
                        }
                        assert forall|i: int| 0 <= i < after.sections.len() - 1 implies (
                        #[trigger] after.sections[i]).end_offset <= after.sections[i
                            + 1].start_offset by {
                            assert(after.sections[i] == before.sections[i]);
                            if i + 1 < before.sections.len() {
                                assert(after.sections[i + 1] == before.sections[i + 1]);
                            }
                        }
                    }
                    assert forall|i: int|
                        0 <= i < events.len() && (
                        #[trigger] events[i]).event is HeadingStart implies events[i].offset
                        <= after.start by {
                        if i < events.len() - 1 {
                            assert(events[i].offset <= events[events.len() - 1].offset);
                        }
                    }
                }
            },
            _ => {
                if headings_ascend(events, doc_len) {
                    assert forall|i: int|
                        0 <= i < events.len() && (
                        #[trigger] events[i]).event is HeadingStart implies events[i].offset
                        <= after.start by {
                        assert(earlier[i] == events[i]);
                    }
                }
            },
        }
    }
}

/// The text being gathered starts at offset 0 or at the offset of a
/// heading.
proof fn lemma_start_is_a_heading(events: Seq<SpannedEventModel>)
    ensures
        segmenter_scan(events).start == 0 || exists|i: int|
            0 <= i < events.len() && (#[trigger] events[i]).event is HeadingStart
                && events[i].offset == segmenter_scan(events).start,
    decreases events.len(),
{
    if events.len() > 0 {
        let earlier = events.drop_last();
        lemma_start_is_a_heading(earlier);
        let before = segmenter_scan(earlier);
        let after = segmenter_scan(events);
        if events.last().event is HeadingStart {
            assert(events[events.len() - 1].offset == after.start);
        } else if before.start != 0 {
            let i = choose|i: int|
                0 <= i < earlier.len() && (#[trigger] earlier[i]).event is HeadingStart
                    && earlier[i].offset == before.start;
            assert(events[i] == earlier[i]);
        }
    }
}

/// A heading text of all but the last event is a heading text of all.
proof fn lemma_heading_text_stays(events: Seq<SpannedEventModel>, title: Seq<char>)
    requires
        events.len() > 0,
        is_heading_text(events.drop_last(), title),
    ensures
        is_heading_text(events, title),
{
    let earlier = events.drop_last();
    let i = choose|i: int|
        0 <= i < earlier.len() && (#[trigger] earlier[i]).event == EventModel::Text(title)
            && segmenter_scan(earlier.take(i)).in_heading;
    assert(earlier.take(i) =~= events.take(i));
    assert(events[i] == earlier[i]);
}

/// What holds of the paths after any events: the path in effect and the
/// paths of the closed sections hold nothing but texts of headings; no
/// section is closed before the first heading, and only the first section
/// can have level 0.
spec fn path_invariant(state: SegmenterState, events: Seq<SpannedEventModel>) -> bool {
    &&& titles_only(state.path, events)
    &&& forall|i: int|
        0 <= i < state.sections.len() ==> titles_only(
            (#[trigger] state.sections[i]).heading_path,
            events,
        )
    &&& state.level == 0 ==> state.sections.len() == 0
    &&& forall|i: int|
        0 <= i < state.sections.len() && (#[trigger] state.sections[i]).level == 0 ==> i == 0
}

proof fn lemma_path_invariant(events: Seq<SpannedEventModel>)
    requires
        headings_have_depth(events),
    ensures
        path_invariant(segmenter_scan(events), events),
    decreases events.len(),
{
    if events.len() > 0 {
        let earlier = events.drop_last();
        let before = segmenter_scan(earlier);
        let after = segmenter_scan(events);
        let event = events.last();
        assert(headings_have_depth(earlier)) by {
            assert forall|i: int| 0 <= i < earlier.len() implies (
            #[trigger] earlier[i].event matches EventModel::HeadingStart(level) ==> level
                >= 1) by {
                assert(earlier[i] == events[i]);
                assert(events[i].event matches EventModel::HeadingStart(level) ==> level >= 1);
            }
        }
        lemma_path_invariant(earlier);
        assert(events[events.len() - 1].event matches EventModel::HeadingStart(l) ==> l >= 1);
        assert forall|title: Seq<char>| is_heading_text(earlier, title) implies is_heading_text(
            events,
            title,
        ) by {
            lemma_heading_text_stays(events, title);
        }
        assert(titles_only(after.path, events)) by {
            assert forall|k: int| 0 <= k < after.path.len() implies is_heading_text(
                events,
                #[trigger] after.path[k],
            ) by {
                if k < before.path.len() && after.path[k] == before.path[k] {
                    assert(is_heading_text(earlier, before.path[k]));
                } else {
                    assert(event.event is Text);
                    assert(before.in_heading);
                    assert(events.take(events.len() - 1) =~= earlier);
                    assert(events[events.len() - 1].event == EventModel::Text(after.path[k]));
                }
            }
        }
        assert forall|i: int| 0 <= i < after.sections.len() implies titles_only(
            (#[trigger] after.sections[i]).heading_path,
            events,
        ) by {
            let path = after.sections[i].heading_path;
            if i < before.sections.len() {
                assert(after.sections[i] == before.sections[i]);
                assert(titles_only(before.sections[i].heading_path, earlier));
                assert forall|k: int| 0 <= k < path.len() implies is_heading_text(
                    events,
                    #[trigger] path[k],
                ) by {
                    assert(is_heading_text(earlier, before.sections[i].heading_path[k]));
                }
            } else {
                assert(path == before.path);
                assert forall|k: int| 0 <= k < path.len() implies is_heading_text(
                    events,
                    #[trigger] path[k],
                ) by {
                    assert(is_heading_text(earlier, before.path[k]));
                }
            }
        }
        assert forall|i: int|
            0 <= i < after.sections.len() && (#[trigger] after.sections[i]).level == 0 implies i
            == 0 by {
            if i < before.sections.len() {
                assert(after.sections[i] == before.sections[i]);
            }
        }
    }
}

/// Every section of a segmentation has content that is not blank, no more
/// heading path entries than its level, and in its path nothing but texts
/// of headings; only the first section can have level 0, and its path is
/// then empty. Where the headings of the events begin at ascending offsets
/// within the document, the spans of the sections ascend too.
pub proof fn lemma_segments_well_formed(events: Seq<SpannedEventModel>, doc_len: nat)
    requires
        headings_have_depth(events),
    ensures
        forall|i: int|
            0 <= i < segments(events, doc_len).len() ==> section_well_formed(
                #[trigger] segments(events, doc_len)[i],
                events,
            ),
        forall|i: int|
            0 <= i < segments(events, doc_len).len() && (#[trigger] segments(
                events,
                doc_len,
            )[i]).level == 0 ==> i == 0,
        headings_ascend(events, doc_len) ==> spans_ascend(segments(events, doc_len)),
{
    lemma_scan_invariant(events, doc_len);
    lemma_path_invariant(events);
    let state = segmenter_scan(events);
    let all = segments(events, doc_len);
    assert forall|i: int| 0 <= i < all.len() implies section_well_formed(
        #[trigger] all[i],
        events,
    ) by {
        if i < state.sections.len() {
            assert(all[i] == state.sections[i]);
            assert(section_sound(state.sections[i]));
            assert(titles_only(state.sections[i].heading_path, events));
        } else {
            assert(all[i].heading_path == state.path);
        }
    }
    assert forall|i: int| 0 <= i < all.len() && (#[trigger] all[i]).level == 0 implies i == 0 by {
        if i < state.sections.len() {
            assert(all[i] == state.sections[i]);
        }
    }
    if headings_ascend(events, doc_len) {
        assert forall|i: int| 0 <= i < all.len() implies (#[trigger] all[i]).start_offset
            <= all[i].end_offset by {
            if i < state.sections.len() {
                assert(all[i] == state.sections[i]);
            }
        }
        assert forall|i: int| 0 <= i < all.len() - 1 implies (#[trigger] all[i]).end_offset
            <= all[i + 1].start_offset by {
            assert(all[i] == state.sections[i]);
            if i + 1 < state.sections.len() {
                assert(all[i + 1] == state.sections[i + 1]);
            }
        }
    }
}

/// The event stream that the markdown parser yields for `text`, with the
/// byte offset at which each event's source begins.
pub uninterp spec fn parsed_events(text: Seq<char>) -> Seq<SpannedEventModel>;

/// Runs `pulldown_cmark::Parser::new(content).into_offset_iter()` to its end
/// and keeps, of each event, its kind, its text and the start of its range.
/// The stream depends on `content` alone, and a heading's level is one of the
/// six of `pulldown_cmark::HeadingLevel`, numbered from 1.
#[verifier::external_body]
pub(crate) fn scan_markdown(content: &str) -> (events: Vec<SpannedEvent>)
    ensures
        event_models(events@) == parsed_events(content@),
        headings_have_depth(event_models(events@)),
{
    let mut events = Vec::new();
    for (event, range) in Parser::new(content).into_offset_iter() {
        events.push(SpannedEvent { offset: range.start, event: match event {
            Event::Start(Tag::Heading(level, ..)) => MarkupEvent::HeadingStart(level as usize),
            Event::End(Tag::Heading(..)) => MarkupEvent::HeadingEnd,
            Event::Text(text) => MarkupEvent::Text(text.to_string()),
            Event::Code(code) => MarkupEvent::Code(code.to_string()),
            Event::Start(Tag::CodeBlock(_)) => MarkupEvent::CodeBlockStart,
            Event::End(Tag::CodeBlock(_)) => MarkupEvent::CodeBlockEnd,
            Event::SoftBreak => MarkupEvent::SoftBreak,
            Event::HardBreak => MarkupEvent::HardBreak,
            _ => MarkupEvent::Other,
        } });
    }
    events
}

/// Closes the gathered text as a section ending at `end`, unless it is blank.
fn close_section(
    sections: &mut Vec<MarkdownSection>,
    content: &String,
    path: &Vec<String>,
    level: usize,
    start: usize,
    end: usize,
)
    ensures
        section_models(final(sections)@) == sections_closed_at(
            SegmenterState {
                sections: section_models(old(sections)@),
                path: texts(path@),
                content: content@,
                level: level as nat,
                start: start as nat,
                in_code_block: false,
                in_heading: false,
            },
            end as nat,
        ),
{
    if !blank(content.as_str()) {
        let section = MarkdownSection {
            content: content.clone(),
            heading_path: clone_strings(path),
            level,
            start_offset: start,
            end_offset: end,
        };
        let ghost before = sections@;
        sections.push(section);
        assert(section_models(sections@) =~= section_models(before).push(section@));
    }
}

/// Segments an event stream: a heading closes the text gathered before it
/// and opens a new section; the end of input closes the last one.
pub fn segment_events(events: &Vec<SpannedEvent>, doc_len: usize) -> (sections: Vec<
    MarkdownSection,
>)
    requires
        headings_have_depth(event_models(events@)),
    ensures
        section_models(sections@) == segments(event_models(events@), doc_len as nat),
        forall|i: int|
            0 <= i < sections.len() ==> section_well_formed(
                #[trigger] section_models(sections@)[i],
                event_models(events@),
            ),
        forall|i: int|
            0 <= i < sections.len() && (#[trigger] section_models(sections@)[i]).level == 0 ==> i
                == 0,
{
    let mut sections: Vec<MarkdownSection> = Vec::new();
    let mut path: Vec<String> = Vec::new();
    let mut content = String::new();
    let mut level: usize = 0;
    let mut start: usize = 0;
    let mut in_code_block = false;
    let mut in_heading = false;
    let ghost models = event_models(events@);
    let mut i: usize = 0;
    assert(section_models(sections@) =~= Seq::<SectionModel>::empty());
    assert(texts(path@) =~= Seq::<Seq<char>>::empty());
    while i < events.len()
        invariant
            i <= events.len(),
            models == event_models(events@),
            headings_have_depth(models),
            segmenter_scan(models.take(i as int)) == (SegmenterState {
                sections: section_models(sections@),
                path: texts(path@),
                content: content@,
                level: level as nat,
                start: start as nat,
                in_code_block,
                in_heading,
            }),
        decreases events.len() - i,
    {
        proof {
            assert(models.take(i + 1).drop_last() =~= models.take(i as int));
            assert(models.take(i + 1).last() == events@[i as int]@);
            assert(models[i as int] == events@[i as int]@);
        }
        let ghost before = segmenter_scan(models.take(i as int));
        match &events[i].event {
            MarkupEvent::HeadingStart(depth) => {
                assert(models[i as int].event == EventModel::HeadingStart(*depth as nat));
                close_section(&mut sections, &content, &path, level, start, events[i].offset);
                assert(section_models(sections@) == sections_closed_at(
                    before,
                    events@[i as int].offset as nat,
                ));
                content = String::new();
                level = *depth;
                start = events[i].offset;
                let ghost old_path = texts(path@);
                while path.len() >= level
                    invariant
                        level >= 1,
                        path.len() <= old_path.len(),
                        path.len() == old_path.len() || path.len() + 1 >= level,
                        texts(path@) == old_path.take(path.len() as int),
                    decreases path.len(),
                {
                    path.pop();
                    assert(texts(path@) =~= old_path.take(path.len() as int));
                }
                assert(texts(path@) =~= path_under(old_path, level as nat));
                in_heading = true;
            },
            MarkupEvent::HeadingEnd => {
                in_heading = false;
            },
            MarkupEvent::Text(text) => {
                if in_heading && path.len() < level {
                    let ghost old_path = path@;
                    path.push(text.clone());
                    assert(texts(path@) =~= texts(old_path).push(text@));
                }
                content.append(text.as_str());
                content.push(' ');
                assert(content@ =~= before.content + text@ + seq![' ']);
            },
            MarkupEvent::Code(code) => {
                content.push('`');
                content.append(code.as_str());
                content.push('`');
                content.push(' ');
                assert(content@ =~= before.content + seq!['`'] + code@ + seq!['`', ' ']);
            },
            MarkupEvent::CodeBlockStart => {
                in_code_block = true;
                proof {
                    reveal_strlit("```\n");
                }
                content.append("```\n");
                assert(content@ =~= before.content + seq!['`', '`', '`', '\n']);
            },
            MarkupEvent::CodeBlockEnd => {
                in_code_block = false;
                proof {
                    reveal_strlit("```\n");
                }
                content.append("```\n");
                assert(content@ =~= before.content + seq!['`', '`', '`', '\n']);
            },
            MarkupEvent::SoftBreak => {
                content.push(if in_code_block { '\n' } else { ' ' });
            },
            MarkupEvent::HardBreak => {
                content.push(if in_code_block { '\n' } else { ' ' });
            },
            MarkupEvent::Other => {},
        }
        i += 1;
    }
    assert(models.take(i as int) =~= models);
    close_section(&mut sections, &content, &path, level, start, doc_len);
    proof {
        let all = segments(models, doc_len as nat);
        lemma_segments_well_formed(models, doc_len as nat);
        assert forall|i: int| 0 <= i < sections.len() implies section_well_formed(
            #[trigger] section_models(sections@)[i],
            models,
        ) by {
            assert(section_well_formed(all[i], models));
        }
        assert forall|i: int|
            0 <= i < sections.len() && (#[trigger] section_models(sections@)[i]).level
                == 0 implies i == 0 by {
            assert(all[i].level == 0);
        }
    }
    sections
}

/// Parses a markdown document into its sections: one for the text before
/// the first heading, if that is not blank, and one for every heading with
/// text; a document without headings is one section of level 0.
pub fn parse_markdown(content: &str) -> (sections: Vec<MarkdownSection>)
    ensures
        section_models(sections@) == segments(
            parsed_events(content@),
            vstd::utf8::encode_utf8(content@).len(),
        ),
        forall|i: int|
            0 <= i < sections.len() ==> section_well_formed(
                #[trigger] section_models(sections@)[i],
                parsed_events(content@),
            ),
        forall|i: int|
            0 <= i < sections.len() && (#[trigger] section_models(sections@)[i]).level == 0 ==> i
                == 0,
{
    let events = scan_markdown(content);
    segment_events(&events, content.as_bytes().len())
}

} // verus!
