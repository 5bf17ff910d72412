//! Loading: how the events of a markdown document become stored sections.

use crate::markdown::{
    event_models, parsed_events, scan_markdown, EventModel, MarkupEvent, SpannedEvent,
    SpannedEventModel,
};
use crate::processor::{stored, MarkdownProcessor, MarkdownSection, SectionModel};
use crate::text::{decimal, decimal_string, lowercase, split_words, texts, words};
use vstd::prelude::*;
use vstd::string::StringExecFns;
use vstd::string::StrSliceExecFns;

verus! {

/// A section of `category` with the id `id` and nothing else yet.
pub open spec fn empty_section(id: Seq<char>, category: Seq<char>) -> SectionModel {
    SectionModel {
        id,
        title: Seq::empty(),
        content: Seq::empty(),
        tags: Seq::empty(),
        relevance_bits: 0,
        category,
    }
}

/// The tags that a title gives: its words whose UTF-8 form is longer than
/// three bytes, lowercased.
pub open spec fn title_tags(title: Seq<char>) -> Seq<Seq<char>> {
    words(title).filter(|w: Seq<char>| vstd::utf8::encode_utf8(w).len() > 3).map_values(
        |w: Seq<char>| lowercase(w),
    )
}

/// The id of the section that a heading opens when `count` sections are
/// stored: the category, an underscore, and `count` in decimal.
pub open spec fn section_id(category: Seq<char>, count: nat) -> Seq<char> {
    category + seq!['_'] + decimal(count)
}

/// What loading remembers between two events.
pub struct LoaderState {
    /// The stored sections.
    pub sections: Seq<SectionModel>,
    /// The section being gathered.
    pub current: SectionModel,
    /// Whether a heading is open.
    pub in_heading: bool,
}

/// The state before any event, over the sections already stored.
pub open spec fn loader_start(sections: Seq<SectionModel>, category: Seq<char>) -> LoaderState {
    LoaderState {
        sections,
        current: empty_section(Seq::empty(), category),
        in_heading: false,
    }
}

/// The state after one more event. A heading stores the section gathered
/// before it, if that has any content, and opens a new one; text inside a
/// heading becomes the title and gives the tags; other text and line breaks
/// are gathered as content.
pub open spec fn loader_step(
    state: LoaderState,
    category: Seq<char>,
    event: EventModel,
) -> LoaderState {
    match event {
        EventModel::HeadingStart(_) => {
            let sections = if state.current.content.len() > 0 {
                state.sections.push(stored(state.current))
            } else {
                state.sections
            };
            LoaderState {
                sections,
                current: empty_section(section_id(category, sections.len()), category),
                in_heading: true,
            }
        },
        EventModel::HeadingEnd => LoaderState { in_heading: false, ..state },
        EventModel::Text(text) => if state.in_heading {
            LoaderState {
                current: SectionModel { title: text, tags: title_tags(text), ..state.current },
                ..state
            }
        } else {
            LoaderState {
                current: SectionModel {
                    content: state.current.content + text + seq![' '],
                    ..state.current
                },
                ..state
            }
        },
        EventModel::SoftBreak | EventModel::HardBreak => LoaderState {
            current: SectionModel {
                content: state.current.content.push('\n'),
                ..state.current
            },
            ..state
        },
        _ => state,
    }
}

/// The state after all of `events`, taken in order.
pub open spec fn loader_scan(
    sections: Seq<SectionModel>,
    category: Seq<char>,
    events: Seq<SpannedEventModel>,
) -> LoaderState
    decreases events.len(),
{
    if events.len() == 0 {
        loader_start(sections, category)
    } else {
        loader_step(
            loader_scan(sections, category, events.drop_last()),
            category,
            events.last().event,
        )
    }
}

/// The stored sections after a document with the events `events` has been
/// loaded under `category`: the last section gathered is stored if it has
/// content or a title.
pub open spec fn loaded(
    sections: Seq<SectionModel>,
    category: Seq<char>,
    events: Seq<SpannedEventModel>,
) -> Seq<SectionModel> {
    let state = loader_scan(sections, category, events);
    if state.current.content.len() > 0 || state.current.title.len() > 0 {
        state.sections.push(stored(state.current))
    } else {
        state.sections
    }
}

/// The tags of a title.
fn title_tag_list(title: &str) -> (tags: Vec<String>)
    ensures
        texts(tags@) == title_tags(title@),
{
    let found = split_words(title);
    let ghost long = |w: Seq<char>| vstd::utf8::encode_utf8(w).len() > 3;
    let ghost lower = |w: Seq<char>| lowercase(w);
    let ghost all = texts(found@);
    let mut tags: Vec<String> = Vec::new();
    let mut i: usize = 0;
    proof {
        reveal(Seq::filter);
        assert(all.take(0).filter(long) =~= Seq::<Seq<char>>::empty());
        assert(texts(tags@) =~= all.take(0).filter(long).map_values(lower));
    }
    while i < found.len()
        invariant
            i <= found.len(),
            all == texts(found@),
            long == (|w: Seq<char>| vstd::utf8::encode_utf8(w).len() > 3),
            lower == (|w: Seq<char>| lowercase(w)),
            texts(tags@) == all.take(i as int).filter(long).map_values(lower),
        decreases found.len() - i,
    {
        proof {
            all.take(i as int).lemma_filter_push(all[i as int], long);
            assert(all.take(i + 1) =~= all.take(i as int).push(all[i as int]));
        }
        if found[i].as_str().as_bytes().len() > 3 {
            let ghost before = tags@;
            let tag = found[i].as_str().to_lowercase();
            tags.push(tag);
            assert(texts(tags@) =~= texts(before).push(tag@));
            assert(texts(tags@) =~= all.take(i + 1).filter(long).map_values(lower));
        }
        i += 1;
    }
    assert(all.take(i as int) =~= all);
    tags
}

impl MarkdownProcessor {
    /// Loads the sections that an event stream describes, under `category`.
    pub fn load_events(&mut self, events: &Vec<SpannedEvent>, category: &str)
        ensures
            final(self)@.sections == loaded(old(self)@.sections, category@, event_models(events@)),
            final(self)@.max_context_length == old(self)@.max_context_length,
    {
        let ghost models = event_models(events@);
        let ghost start = self@.sections;
        let mut id = String::new();
        let mut title = String::new();
        let mut content = String::new();
        let mut tags: Vec<String> = Vec::new();
        let mut in_heading = false;
        let mut i: usize = 0;
        assert(texts(tags@) =~= Seq::<Seq<char>>::empty());
        while i < events.len()
            invariant
                i <= events.len(),
                models == event_models(events@),
                self@.max_context_length == old(self)@.max_context_length,
                loader_scan(start, category@, models.take(i as int)) == (LoaderState {
                    sections: self@.sections,
                    current: SectionModel {
                        id: id@,
                        title: title@,
                        content: content@,
                        tags: texts(tags@),
                        relevance_bits: 0,
                        category: category@,
                    },
                    in_heading,
                }),
            decreases events.len() - i,
        {
            proof {
                assert(models.take(i + 1).drop_last() =~= models.take(i as int));
                assert(models.take(i + 1).last() == events@[i as int]@);
            }
            let ghost before = loader_scan(start, category@, models.take(i as int));
            match &events[i].event {
                MarkupEvent::HeadingStart(_) => {
                    if content.as_str().unicode_len() > 0 {
                        let section = MarkdownSection {
                            id,
                            title,
                            content,
                            tags,
                            relevance_bits: 0,
                            category: category.to_owned(),
                        };
                        assert(section@ == before.current);
                        self.add_section(section);
                    }
                    id = category.to_owned();
                    id.push('_');
                    id.append(decimal_string(self.get_section_count() as u64).as_str());
                    assert(id@ =~= section_id(category@, self@.sections.len()));
                    title = String::new();
                    content = String::new();
                    tags = Vec::new();
                    assert(texts(tags@) =~= Seq::<Seq<char>>::empty());
                    in_heading = true;
                },
                MarkupEvent::HeadingEnd => {
                    in_heading = false;
                },
                MarkupEvent::Text(text) => {
                    if in_heading {
                        title = text.clone();
                        tags = title_tag_list(text.as_str());
                    } else {
                        content.append(text.as_str());
                        content.push(' ');
                        assert(content@ =~= before.current.content + text@ + seq![' ']);
                    }
                },
                MarkupEvent::SoftBreak => {
                    content.push('\n');
                },
                MarkupEvent::HardBreak => {
                    content.push('\n');
                },
                _ => {},
            }
            i += 1;
        }
        assert(models.take(i as int) =~= models);
        if content.as_str().unicode_len() > 0 || title.as_str().unicode_len() > 0 {
            let section = MarkdownSection {
                id,
                title,
                content,
                tags,
                relevance_bits: 0,
                category: category.to_owned(),
            };
            self.add_section(section);
        }
    }

    /// Parses `content` as markdown and loads its sections under
    /// `category`.
    pub fn load_markdown(&mut self, content: &str, category: &str)
        ensures
            final(self)@.sections == loaded(
                old(self)@.sections,
                category@,
                parsed_events(content@),
            ),
            final(self)@.max_context_length == old(self)@.max_context_length,
    {
        let events = scan_markdown(content);
        self.load_events(&events, category);
    }
}

} // verus!
