//! Full dump: every section of the known categories, grouped by category
//! in a fixed order.

use crate::assembler::{
    assemble, assembled, fitting, lemma_marker_characters, lemma_marker_only_at_end, marker_free,
    marker_note, truncation_marker,
};
use crate::processor::search::section_marker_free;
use crate::processor::{section_models, MarkdownProcessor, ProcessorModel, SectionModel};
use crate::text::{
    lemma_lacks, lemma_no_start_no_occurrence, lemma_occurs_in_left, lemma_occurs_in_right,
    lemma_occurs_on_one_side, occurs_in, same_text, texts,
};
use vstd::prelude::*;
use vstd::string::StringExecFns;

verus! {

/// The block that shows a section in a full dump.
pub open spec fn dump_block(section: SectionModel) -> Seq<char> {
    "## "@ + section.title + "\n"@ + section.content + "\n\n"@
}

/// The parts that a full dump gives to `category`: nothing if no section
/// belongs to it, else its heading and one block for each of its sections
/// in stored order.
pub open spec fn category_parts(
    sections: Seq<SectionModel>,
    category: Seq<char>,
    heading: Seq<char>,
) -> Seq<Seq<char>> {
    let members = sections.filter(|s: SectionModel| s.category == category);
    if members.len() == 0 {
        Seq::empty()
    } else {
        seq![heading] + members.map_values(|s: SectionModel| dump_block(s))
    }
}

/// The parts of a full dump: the categories `personal`, `context` and
/// `knowledge`, in this order; sections of other categories are left out.
pub open spec fn dump_parts(sections: Seq<SectionModel>) -> Seq<Seq<char>> {
    category_parts(sections, "personal"@, "\n# PERSONAL INFORMATION\n\n"@) + category_parts(
        sections,
        "context"@,
        "\n# CONTEXT INFORMATION\n\n"@,
    ) + category_parts(sections, "knowledge"@, "\n# KNOWLEDGE INFORMATION\n\n"@)
}

/// The text of a full dump.
pub open spec fn full_context_text(model: ProcessorModel) -> Seq<char> {
    assembled(dump_parts(model.sections), model.max_context_length)
}

/// The dump block of a section that is free of the marker's note is free of
/// it and ends with a line feed.
pub proof fn lemma_dump_block_marker_free(section: SectionModel)
    requires
        section_marker_free(section),
    ensures
        marker_free(dump_block(section)),
{
    let note = marker_note();
    lemma_marker_characters();
    reveal_strlit("## ");
    reveal_strlit("\n");
    reveal_strlit("\n\n");
    lemma_lacks("## "@, '[');
    lemma_lacks("\n"@, ']');
    lemma_lacks("\n\n"@, ']');
    let a1 = "## "@ + section.title;
    let a2 = a1 + "\n"@;
    let a3 = a2 + section.content;
    let a4 = a3 + "\n\n"@;
    if occurs_in(note, a1) {
        lemma_occurs_in_right(note, "## "@, section.title);
    }
    if occurs_in(note, a2) {
        lemma_occurs_in_left(note, a1, "\n"@);
    }
    assert(a2.last() == '\n');
    if occurs_in(note, a3) {
        lemma_occurs_on_one_side(note, a2, section.content);
    }
    if occurs_in(note, a4) {
        lemma_occurs_in_left(note, a3, "\n\n"@);
    }
    assert(a4.last() == '\n');
    assert(dump_block(section) == a4);
}

/// The parts of a category are free of the marker's note where the
/// sections and the heading are.
proof fn lemma_category_parts_marker_free(
    sections: Seq<SectionModel>,
    category: Seq<char>,
    heading: Seq<char>,
)
    requires
        forall|i: int| 0 <= i < sections.len() ==> section_marker_free(#[trigger] sections[i]),
        marker_free(heading),
    ensures
        forall|k: int|
            0 <= k < category_parts(sections, category, heading).len() ==> marker_free(
                #[trigger] category_parts(sections, category, heading)[k],
            ),
{
    let member = |s: SectionModel| s.category == category;
    let members = sections.filter(member);
    let parts = category_parts(sections, category, heading);
    assert forall|k: int| 0 <= k < parts.len() implies marker_free(#[trigger] parts[k]) by {
        if k > 0 {
            let section = members[k - 1];
            assert(members.contains(section));
            sections.lemma_filter_contains_rev(member, section);
            let i = choose|i: int| 0 <= i < sections.len() && sections[i] == section;
            assert(section_marker_free(sections[i]));
            lemma_dump_block_marker_free(section);
            assert(parts[k] == dump_block(section));
        }
    }
}

/// A heading line without an opening bracket that ends with a line feed is
/// free of the marker's note.
proof fn lemma_heading_marker_free(heading: Seq<char>)
    requires
        heading.len() > 0,
        heading.last() == '\n',
        forall|i: int| 0 <= i < heading.len() ==> #[trigger] heading[i] != '[',
    ensures
        marker_free(heading),
{
    lemma_marker_characters();
    lemma_lacks(heading, '[');
    lemma_no_start_no_occurrence(marker_note(), heading);
}

/// Truncation is signalled exactly once: where no title and no content
/// holds the marker's note, the marker stands in a full dump exactly when a
/// part was left out for lack of budget, and then only once, as its end.
pub proof fn lemma_full_context_marks_truncation_once(model: ProcessorModel)
    requires
        forall|i: int|
            0 <= i < model.sections.len() ==> section_marker_free(#[trigger] model.sections[i]),
    ensures
        ({
            let parts = dump_parts(model.sections);
            let out = full_context_text(model);
            let marker = truncation_marker();
            &&& fitting(parts, model.max_context_length) < parts.len() ==> out.len()
                >= marker.len() && out.subrange(out.len() - marker.len(), out.len() as int)
                == marker
            &&& forall|at: int|
                0 <= at && at + marker.len() <= out.len() && #[trigger] out.subrange(
                    at,
                    at + marker.len(),
                ) == marker ==> fitting(parts, model.max_context_length) < parts.len() && at
                    == out.len() - marker.len()
        }),
{
    let sections = model.sections;
    reveal_strlit("\n# PERSONAL INFORMATION\n\n");
    reveal_strlit("\n# CONTEXT INFORMATION\n\n");
    reveal_strlit("\n# KNOWLEDGE INFORMATION\n\n");
    lemma_heading_marker_free("\n# PERSONAL INFORMATION\n\n"@);
    lemma_heading_marker_free("\n# CONTEXT INFORMATION\n\n"@);
    lemma_heading_marker_free("\n# KNOWLEDGE INFORMATION\n\n"@);
    let first = category_parts(sections, "personal"@, "\n# PERSONAL INFORMATION\n\n"@);
    let second = category_parts(sections, "context"@, "\n# CONTEXT INFORMATION\n\n"@);
    let third = category_parts(sections, "knowledge"@, "\n# KNOWLEDGE INFORMATION\n\n"@);
    lemma_category_parts_marker_free(sections, "personal"@, "\n# PERSONAL INFORMATION\n\n"@);
    lemma_category_parts_marker_free(sections, "context"@, "\n# CONTEXT INFORMATION\n\n"@);
    lemma_category_parts_marker_free(sections, "knowledge"@, "\n# KNOWLEDGE INFORMATION\n\n"@);
    let parts = dump_parts(sections);
    assert forall|k: int| 0 <= k < parts.len() implies marker_free(#[trigger] parts[k]) by {
        if k < first.len() {
            assert(parts[k] == first[k]);
        } else if k < first.len() + second.len() {
            assert(parts[k] == second[k - first.len()]);
        } else {
            assert(parts[k] == third[k - first.len() - second.len()]);
        }
    }
    lemma_marker_only_at_end(parts, model.max_context_length);
}

impl MarkdownProcessor {
    /// Adds to `parts` what a full dump shows of `category`.
    fn append_category(&self, parts: &mut Vec<String>, category: &str, heading: &str)
        ensures
            texts(final(parts)@) == texts(old(parts)@) + category_parts(
                self@.sections,
                category@,
                heading@,
            ),
    {
        let ghost sections = self@.sections;
        let ghost member = |s: SectionModel| s.category == category@;
        let ghost block = |s: SectionModel| dump_block(s);
        let held = self.sections();
        let mut blocks: Vec<String> = Vec::new();
        let mut i: usize = 0;
        proof {
            reveal(Seq::filter);
            assert(texts(blocks@) =~= sections.take(0).filter(member).map_values(block));
        }
        while i < held.len()
            invariant
                i <= held.len(),
                sections == section_models(held@),
                member == (|s: SectionModel| s.category == category@),
                block == (|s: SectionModel| dump_block(s)),
                texts(blocks@) == sections.take(i as int).filter(member).map_values(block),
            decreases held.len() - i,
        {
            let section = &held[i];
            proof {
                sections.take(i as int).lemma_filter_push(section@, member);
                assert(sections.take(i + 1) =~= sections.take(i as int).push(section@));
            }
            if same_text(section.category.as_str(), category) {
                let mut text = "## ".to_owned();
                text.append(section.title.as_str());
                text.append("\n");
                text.append(section.content.as_str());
                text.append("\n\n");
                assert(text@ =~= dump_block(section@));
                let ghost before = texts(blocks@);
                let ghost written = text@;
                blocks.push(text);
                assert(texts(blocks@) =~= before.push(written));
                assert(texts(blocks@) =~= sections.take(i + 1).filter(member).map_values(block));
            }
            i += 1;
        }
        assert(sections.take(i as int) =~= sections);
        if blocks.len() > 0 {
            let ghost before = texts(parts@);
            let ghost found = texts(blocks@);
            parts.push(heading.to_owned());
            parts.append(&mut blocks);
            assert(texts(parts@) =~= before + (seq![heading@] + found));
        } else {
            assert(texts(parts@) + Seq::<Seq<char>>::empty() =~= texts(parts@));
        }
    }

    /// Renders every section of the categories `personal`, `context` and
    /// `knowledge`, in this order, each category behind its heading, all
    /// under the character budget.
    pub fn get_full_context(&self) -> (out: String)
        ensures
            out@ == full_context_text(self@),
            out@.len() <= self@.max_context_length + truncation_marker().len(),
    {
        let mut parts: Vec<String> = Vec::new();
        assert(texts(parts@) =~= Seq::<Seq<char>>::empty());
        self.append_category(&mut parts, "personal", "\n# PERSONAL INFORMATION\n\n");
        self.append_category(&mut parts, "context", "\n# CONTEXT INFORMATION\n\n");
        self.append_category(&mut parts, "knowledge", "\n# KNOWLEDGE INFORMATION\n\n");
        assert(texts(parts@) =~= dump_parts(self@.sections));
        assemble(&parts, self.budget())
    }
}

} // verus!
