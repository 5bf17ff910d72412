//! An in-memory session over markdown sections: a section store with its
//! lexical index, keyword search with category weighting and forced
//! inclusion of core sections, and rendering of bounded context text.

use crate::index::{ascending, count_of, document_terms, indexed_words, LexicalIndex};
use crate::text::{clone_strings, texts, trim, trimmed};
use vstd::prelude::*;

pub mod dump;
pub mod load;
pub mod search;

verus! {

/// A titled piece of a document, as the session stores it.
#[derive(Debug)]
pub struct MarkdownSection {
    pub id: String,
    pub title: String,
    pub content: String,
    pub tags: Vec<String>,
    /// Bit pattern of the stored single-precision relevance value.
    pub relevance_bits: u32,
    pub category: String,
}

/// Mathematical form of a `MarkdownSection`.
pub struct SectionModel {
    pub id: Seq<char>,
    pub title: Seq<char>,
    pub content: Seq<char>,
    pub tags: Seq<Seq<char>>,
    pub relevance_bits: u32,
    pub category: Seq<char>,
}

impl View for MarkdownSection {
    type V = SectionModel;

    open spec fn view(&self) -> SectionModel {
        SectionModel {
            id: self.id@,
            title: self.title@,
            content: self.content@,
            tags: texts(self.tags@),
            relevance_bits: self.relevance_bits,
            category: self.category@,
        }
    }
}

impl MarkdownSection {
    /// A section equal to this one.
    pub fn duplicate(&self) -> (copy: MarkdownSection)
        ensures
            copy@ == self@,
    {
        MarkdownSection {
            id: self.id.clone(),
            title: self.title.clone(),
            content: self.content.clone(),
            tags: clone_strings(&self.tags),
            relevance_bits: self.relevance_bits,
            category: self.category.clone(),
        }
    }
}

/// The models of a sequence of sections.
pub open spec fn section_models(sections: Seq<MarkdownSection>) -> Seq<SectionModel> {
    Seq::new(sections.len(), |i: int| sections[i]@)
}

/// The index terms of a section: the normalised words of its content, then
/// those of its title.
pub open spec fn section_terms(section: SectionModel) -> Seq<Seq<char>> {
    document_terms(section.content, section.title)
}

/// The index terms of each section.
pub open spec fn term_lists(sections: Seq<SectionModel>) -> Seq<Seq<Seq<char>>> {
    sections.map_values(|s: SectionModel| section_terms(s))
}

/// The section as the store keeps it: its content trimmed.
pub open spec fn stored(section: SectionModel) -> SectionModel {
    SectionModel { content: trimmed(section.content), ..section }
}

/// Whether a section is as the store keeps sections: its content has no
/// white space at either end.
pub open spec fn is_stored(section: SectionModel) -> bool {
    stored(section) == section
}

/// Storing a stored section changes nothing.
pub proof fn lemma_stored_twice(section: SectionModel)
    ensures
        is_stored(stored(section)),
{
    crate::text::lemma_trimmed_twice(section.content);
}

/// Sections that are as the store keeps them come back unchanged from an
/// import: a session that imports what it, or another, has exported holds
/// the exported sections.
pub proof fn lemma_import_of_stored(sections: Seq<SectionModel>)
    requires
        forall|i: int| 0 <= i < sections.len() ==> is_stored(#[trigger] sections[i]),
    ensures
        sections.map_values(|s: SectionModel| stored(s)) == sections,
{
    assert(sections.map_values(|s: SectionModel| stored(s)) =~= sections);
}

/// Mathematical form of a `MarkdownProcessor`.
pub struct ProcessorModel {
    /// The stored sections; a section's id in the index is its position.
    pub sections: Seq<SectionModel>,
    /// Character budget of a rendered context.
    pub max_context_length: nat,
}

/// The sections of a session with their index.
struct Shelf {
    sections: Vec<MarkdownSection>,
    index: LexicalIndex,
}

impl Shelf {
    spec fn wf(&self) -> bool {
        &&& self.index@ == term_lists(section_models(self.sections@))
        &&& forall|i: int|
            0 <= i < self.sections.len() ==> is_stored(#[trigger] section_models(self.sections@)[i])
    }

    fn new() -> (shelf: Shelf)
        ensures
            shelf.wf(),
            shelf.sections@.len() == 0,
    {
        let shelf = Shelf { sections: Vec::new(), index: LexicalIndex::new() };
        assert(shelf.index@ =~= term_lists(section_models(shelf.sections@)));
        shelf
    }

    /// Stores `section` with its content trimmed, under the next id, and
    /// indexes its terms.
    fn add_section(&mut self, section: MarkdownSection)
        requires
            old(self).wf(),
        ensures
            final(self).wf(),
            section_models(final(self).sections@) == section_models(old(self).sections@).push(
                stored(section@),
            ),
    {
        let ghost before = section_models(self.sections@);
        let kept = MarkdownSection {
            id: section.id,
            title: section.title,
            content: trim(section.content.as_str()),
            tags: section.tags,
            relevance_bits: section.relevance_bits,
            category: section.category,
        };
        assert(kept@ == stored(section@));
        let count = self.sections.len();
        self.sections.push(kept);
        assert(count + 1 == self.sections.len());
        let last = &self.sections[count];
        self.index.index(last.content.as_str(), last.title.as_str());
        proof {
            lemma_stored_twice(section@);
            let after = section_models(self.sections@);
            assert(after =~= before.push(stored(section@)));
            assert(self.index@ =~= term_lists(after));
            assert forall|i: int| 0 <= i < after.len() implies is_stored(#[trigger] after[i]) by {
                if i < before.len() {
                    assert(after[i] == before[i]);
                }
            }
        }
    }
}

/// A session: sections loaded from markdown or imported, searchable by
/// keyword, rendered under a character budget.
pub struct MarkdownProcessor {
    shelf: Shelf,
    max_context_length: usize,
}

impl View for MarkdownProcessor {
    type V = ProcessorModel;

    closed spec fn view(&self) -> ProcessorModel {
        ProcessorModel {
            sections: section_models(self.shelf.sections@),
            max_context_length: self.max_context_length as nat,
        }
    }
}

impl MarkdownProcessor {
    #[verifier::type_invariant]
    spec fn index_matches_sections(self) -> bool {
        self.shelf.wf()
    }

    /// An empty session with a budget of 100000 characters.
    pub fn new() -> (processor: MarkdownProcessor)
        ensures
            processor@.sections == Seq::<SectionModel>::empty(),
            processor@.max_context_length == 100000,
    {
        let processor = MarkdownProcessor { shelf: Shelf::new(), max_context_length: 100000 };
        assert(processor@.sections =~= Seq::<SectionModel>::empty());
        processor
    }

    /// Forgets every section and empties the index; the budget stays.
    pub fn clear(&mut self)
        ensures
            final(self)@.sections == Seq::<SectionModel>::empty(),
            final(self)@.max_context_length == old(self)@.max_context_length,
    {
        self.shelf = Shelf::new();
        assert(self@.sections =~= Seq::<SectionModel>::empty());
    }

    /// Sets the character budget of rendered contexts.
    pub fn set_max_context_length(&mut self, length: usize)
        ensures
            final(self)@.sections == old(self)@.sections,
            final(self)@.max_context_length == length,
    {
        proof {
            use_type_invariant(&*self);
        }
        self.max_context_length = length;
    }

    /// Number of stored sections.
    pub fn get_section_count(&self) -> (count: usize)
        ensures
            count == self@.sections.len(),
    {
        self.shelf.sections.len()
    }

    /// Number of distinct normalised words that the index holds: those that
    /// occur in the content or the title of at least one section.
    pub fn get_index_size(&self) -> (size: usize)
        ensures
            size == indexed_words(term_lists(self@.sections)).len(),
    {
        proof {
            use_type_invariant(self);
        }
        self.shelf.index.size()
    }

    /// The posting list of the normalised word `word`: the ids of the
    /// sections whose terms hold it, each id once for every occurrence. A
    /// section's id is its position among the stored sections.
    pub fn postings(&self, word: &str) -> (ids: Vec<usize>)
        ensures
            ascending(ids@),
            forall|p: int| 0 <= p < ids.len() ==> #[trigger] ids@[p] < self@.sections.len(),
            forall|id: int|
                0 <= id < self@.sections.len() ==> count_of(ids@, id as usize) == count_of(
                    section_terms(#[trigger] self@.sections[id]),
                    word@,
                ),
    {
        proof {
            use_type_invariant(self);
        }
        let ids = self.shelf.index.postings(word);
        assert forall|id: int| 0 <= id < self@.sections.len() implies count_of(
            ids@,
            id as usize,
        ) == count_of(section_terms(#[trigger] self@.sections[id]), word@) by {
            assert(self.shelf.index@[id] == section_terms(self@.sections[id]));
        }
        ids
    }

    /// The stored sections.
    pub(crate) fn sections(&self) -> (sections: &Vec<MarkdownSection>)
        ensures
            section_models(sections@) == self@.sections,
    {
        &self.shelf.sections
    }

    /// The index of the stored sections.
    pub(crate) fn lexical_index(&self) -> (index: &LexicalIndex)
        ensures
            index@ == term_lists(self@.sections),
    {
        proof {
            use_type_invariant(self);
        }
        &self.shelf.index
    }

    /// The character budget.
    pub(crate) fn budget(&self) -> (budget: usize)
        ensures
            budget == self@.max_context_length,
    {
        self.max_context_length
    }

    /// Stores `section`, trimmed, behind the sections already held.
    pub(crate) fn add_section(&mut self, section: MarkdownSection)
        ensures
            final(self)@.sections == old(self)@.sections.push(stored(section@)),
            final(self)@.max_context_length == old(self)@.max_context_length,
    {
        proof {
            use_type_invariant(&*self);
        }
        let mut shelf = Shelf::new();
        core::mem::swap(&mut self.shelf, &mut shelf);
        shelf.add_section(section);
        self.shelf = shelf;
    }

    /// Copies of the stored sections, in order. Each is as the store keeps
    /// sections, so that an import of them changes none.
    pub fn export_sections(&self) -> (sections: Vec<MarkdownSection>)
        ensures
            section_models(sections@) == self@.sections,
            forall|i: int|
                0 <= i < sections.len() ==> is_stored(#[trigger] section_models(sections@)[i]),
    {
        proof {
            use_type_invariant(self);
        }
        let mut out: Vec<MarkdownSection> = Vec::new();
        let mut i: usize = 0;
        while i < self.shelf.sections.len()
            invariant
                i <= self.shelf.sections.len(),
                section_models(out@) == section_models(self.shelf.sections@).take(i as int),
            decreases self.shelf.sections.len() - i,
        {
            let ghost before = out@;
            let copy = self.shelf.sections[i].duplicate();
            out.push(copy);
            assert(section_models(out@) =~= section_models(before).push(copy@));
            i += 1;
            assert(section_models(out@) =~= section_models(self.shelf.sections@).take(i as int));
        }
        assert(section_models(self.shelf.sections@).take(i as int) =~= section_models(
            self.shelf.sections@,
        ));
        out
    }

    /// Replaces the stored sections by `sections`, each trimmed and indexed
    /// as a loaded one is.
    pub fn import_sections(&mut self, sections: Vec<MarkdownSection>)
        ensures
            final(self)@.sections == section_models(sections@).map_values(
                |s: SectionModel| stored(s),
            ),
            final(self)@.max_context_length == old(self)@.max_context_length,
    {
        self.clear();
        let ghost target = section_models(sections@).map_values(|s: SectionModel| stored(s));
        let mut i: usize = 0;
        assert(self@.sections =~= target.take(0));
        while i < sections.len()
            invariant
                i <= sections.len(),
                target == section_models(sections@).map_values(|s: SectionModel| stored(s)),
                self@.sections == target.take(i as int),
                self@.max_context_length == old(self)@.max_context_length,
            decreases sections.len() - i,
        {
            self.add_section(sections[i].duplicate());
            i += 1;
            assert(self@.sections =~= target.take(i as int));
        }
        assert(target.take(i as int) =~= target);
    }
}

} // verus!
