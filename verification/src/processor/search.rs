//! Search: lexical scoring with category weights, ranking, forced
//! inclusion of core sections, and the rendering of the hits.

use crate::assembler::{
    assemble, assembled, fitting, lemma_marker_characters, lemma_marker_only_at_end, marker_free,
    marker_note, truncation_marker,
};
use crate::index::count_of;
use crate::processor::{
    section_models, section_terms, MarkdownProcessor, ProcessorModel, SectionModel,
};
use crate::ranking::{
    as_ints, is_ranked, lemma_ranking_is_ranked, rank_descending, ranking, ranks_before,
};
use crate::text::{
    decimal, decimal_string, lemma_decimal_is_digits, lemma_lacks, lemma_occurs_in_left,
    lemma_occurs_in_right, lemma_occurs_on_one_side, lowercase, occurs_in, same_text, split_terms,
    str_contains, terms, texts,
};
use vstd::prelude::*;
use vstd::string::StringExecFns;

verus! {

/// How many of `tags` contain `word`.
pub open spec fn tag_hits(tags: Seq<Seq<char>>, word: Seq<char>) -> nat
    decreases tags.len(),
{
    if tags.len() == 0 {
        0
    } else {
        tag_hits(tags.drop_last(), word) + if occurs_in(word, tags.last()) {
            1nat
        } else {
            0nat
        }
    }
}

/// What one query term adds to a section's lexical score: its occurrences
/// among the section's index terms, 10 if the lowercased title contains
/// it, and 5 for each tag that contains it.
pub open spec fn term_score(section: SectionModel, word: Seq<char>) -> nat {
    count_of(section_terms(section), word) + if occurs_in(word, lowercase(section.title)) {
        10nat
    } else {
        0nat
    } + 5 * tag_hits(section.tags, word)
}

/// The lexical score of a section for the query terms `query`.
pub open spec fn lexical_score(section: SectionModel, query: Seq<Seq<char>>) -> nat
    decreases query.len(),
{
    if query.len() == 0 {
        0
    } else {
        lexical_score(section, query.drop_last()) + term_score(section, query.last())
    }
}

/// Twice the weight of a category: 2 for `personal`, 1.5 for `context`, 1
/// for any other.
pub open spec fn category_weight(category: Seq<char>) -> nat {
    if category == "personal"@ {
        4
    } else if category == "context"@ {
        3
    } else {
        2
    }
}

/// `n`, or the largest score that can be held if `n` is beyond it.
pub open spec fn capped(n: nat) -> u64 {
    if n > u64::MAX {
        u64::MAX
    } else {
        n as u64
    }
}

/// The score of a section for `query`, in half points: its lexical score
/// times its category's weight.
pub open spec fn combined_score(section: SectionModel, query: Seq<Seq<char>>) -> u64 {
    capped(lexical_score(section, query) * category_weight(section.category))
}

/// The scores of all sections, by id.
pub open spec fn section_scores(sections: Seq<SectionModel>, query: Seq<Seq<char>>) -> Seq<u64> {
    Seq::new(sections.len(), |i: int| combined_score(sections[i], query))
}

/// A section chosen for the context, with the score to show.
pub struct Hit {
    pub id: int,
    pub score: u64,
}

/// The sections with a positive score in rank order, at most `max_results`
/// of them.
pub open spec fn organic_hits(scores: Seq<u64>, max_results: nat) -> Seq<Hit> {
    let ranked = ranking(scores).filter(|id: int| scores[id] > 0);
    let kept = if max_results < ranked.len() {
        ranked.take(max_results as int)
    } else {
        ranked
    };
    kept.map_values(|id: int| Hit { id, score: scores[id] })
}

/// The id of the first section whose id contains `marker`.
pub open spec fn first_with_id(sections: Seq<SectionModel>, marker: Seq<char>) -> Option<int>
    decreases sections.len(),
{
    if sections.len() == 0 {
        None
    } else {
        match first_with_id(sections.drop_last(), marker) {
            Some(id) => Some(id),
            None => if occurs_in(marker, sections.last().id) {
                Some(sections.len() - 1)
            } else {
                None
            },
        }
    }
}

/// Whether `hits` holds the section `id`.
pub open spec fn holds_id(hits: Seq<Hit>, id: int) -> bool {
    exists|k: int| 0 <= k < hits.len() && (#[trigger] hits[k]).id == id
}

/// `hits` with the first section whose id contains `marker` put in front
/// under the score `sentinel`, unless there is no such section or `hits`
/// holds it already.
pub open spec fn with_forced(
    hits: Seq<Hit>,
    sections: Seq<SectionModel>,
    marker: Seq<char>,
    sentinel: u64,
) -> Seq<Hit> {
    match first_with_id(sections, marker) {
        Some(id) => if holds_id(hits, id) {
            hits
        } else {
            seq![Hit { id, score: sentinel }] + hits
        },
        None => hits,
    }
}

/// The score under which a forced section is shown: 100 points, or half a
/// point more than the highest computed score where that is 100 or more.
pub open spec fn sentinel_score(scores: Seq<u64>) -> u64 {
    let ranked = ranking(scores);
    if ranked.len() > 0 && scores[ranked[0]] >= 200 {
        capped((scores[ranked[0]] + 1) as nat)
    } else {
        200
    }
}

/// The sections that a search shows, in order: the organic hits, with the
/// core sections in front of them where they were not among them.
pub open spec fn search_hits(
    sections: Seq<SectionModel>,
    query: Seq<char>,
    max_results: nat,
) -> Seq<Hit> {
    let scores = section_scores(sections, terms(query));
    let sentinel = sentinel_score(scores);
    with_forced(
        with_forced(organic_hits(scores, max_results), sections, "personal_identity"@, sentinel),
        sections,
        "personal_background"@,
        sentinel,
    )
}

/// A score in half points written in points with one decimal.
pub open spec fn score_text(score: u64) -> Seq<char> {
    decimal((score / 2) as nat) + seq!['.', if score % 2 == 1 { '5' } else { '0' }]
}

/// The block that shows a section found by a search.
pub open spec fn hit_block(section: SectionModel, score: u64) -> Seq<char> {
    "## "@ + section.title + " (Relevance: "@ + score_text(score) + ")\n"@ + section.content
        + "\n\n"@
}

/// The parts of a search result: the heading, then one block for each hit.
pub open spec fn search_parts(sections: Seq<SectionModel>, hits: Seq<Hit>) -> Seq<Seq<char>> {
    seq!["# RELEVANT CONTEXT\n\n"@] + hits.map_values(
        |hit: Hit| hit_block(sections[hit.id], hit.score),
    )
}

/// The context text that a search for `query` returns.
pub open spec fn search_text(model: ProcessorModel, query: Seq<char>, max_results: nat) -> Seq<
    char,
> {
    assembled(
        search_parts(model.sections, search_hits(model.sections, query, max_results)),
        model.max_context_length,
    )
}

/// The models of the exec form of hits: pairs of id and score.
pub open spec fn hit_models(hits: Seq<(usize, u64)>) -> Seq<Hit> {
    Seq::new(hits.len(), |k: int| Hit { id: hits[k].0 as int, score: hits[k].1 })
}

/// The organic hits are at most `max_results`, each a section with a
/// positive score shown under that score, and each ranks ahead of those
/// behind it: scores descend, and sections of equal score keep the order
/// in which they are stored.
pub proof fn lemma_organic_hits_are_ranked(scores: Seq<u64>, max_results: nat)
    ensures
        organic_hits(scores, max_results).len() <= max_results,
        organic_hits(scores, max_results).len() <= scores.len(),
        forall|k: int|
            0 <= k < organic_hits(scores, max_results).len() ==> {
                let hit = #[trigger] organic_hits(scores, max_results)[k];
                0 <= hit.id < scores.len() && hit.score == scores[hit.id] && hit.score > 0
            },
        forall|a: int, b: int|
            0 <= a < b < organic_hits(scores, max_results).len() ==> ranks_before(
                scores,
                (#[trigger] organic_hits(scores, max_results)[a]).id,
                (#[trigger] organic_hits(scores, max_results)[b]).id,
            ),
{
    let order = ranking(scores);
    let positive = |id: int| scores[id] > 0;
    lemma_ranking_is_ranked(scores, scores.len());
    lemma_filter_keeps_rank(order, scores, positive, order.len() as int);
    assert(order.take(order.len() as int) =~= order);
    let ranked = order.filter(positive);
    let kept = if max_results < ranked.len() {
        ranked.take(max_results as int)
    } else {
        ranked
    };
    let hits = organic_hits(scores, max_results);
    assert forall|k: int| 0 <= k < hits.len() implies {
        let hit = #[trigger] hits[k];
        0 <= hit.id < scores.len() && hit.score == scores[hit.id] && hit.score > 0
    } by {
        assert(kept[k] == ranked[k]);
    }
    assert forall|a: int, b: int| 0 <= a < b < hits.len() implies ranks_before(
        scores,
        (#[trigger] hits[a]).id,
        (#[trigger] hits[b]).id,
    ) by {
        assert(kept[a] == ranked[a] && kept[b] == ranked[b]);
    }
}

/// Filtering the first `n` entries of a ranked order leaves entries that
/// pass the filter, are positions of the keys, and rank in the order in
/// which they stand.
proof fn lemma_filter_keeps_rank(
    order: Seq<int>,
    keys: Seq<u64>,
    keep: spec_fn(int) -> bool,
    n: int,
)
    requires
        0 <= n <= order.len(),
        is_ranked(order, keys, keys.len()),
    ensures
        order.take(n).filter(keep).len() <= n,
        forall|k: int|
            0 <= k < order.take(n).filter(keep).len() ==> keep(
                #[trigger] order.take(n).filter(keep)[k],
            ) && 0 <= order.take(n).filter(keep)[k] < keys.len() && exists|i: int|
                0 <= i < n && order[i] == order.take(n).filter(keep)[k],
        forall|a: int, b: int|
            0 <= a < b < order.take(n).filter(keep).len() ==> ranks_before(
                keys,
                #[trigger] order.take(n).filter(keep)[a],
                #[trigger] order.take(n).filter(keep)[b],
            ),
    decreases n,
{
    if n == 0 {
        reveal(Seq::filter);
        assert(order.take(0).filter(keep) =~= Seq::<int>::empty());
    } else {
        let fewer = order.take(n - 1).filter(keep);
        let more = order.take(n).filter(keep);
        lemma_filter_keeps_rank(order, keys, keep, n - 1);
        order.take(n - 1).lemma_filter_push(order[n - 1], keep);
        assert(order.take(n) =~= order.take(n - 1).push(order[n - 1]));
        assert(0 <= order[n - 1] < keys.len());
        assert forall|k: int| 0 <= k < more.len() implies keep(#[trigger] more[k]) && 0 <= more[k]
            < keys.len() && exists|i: int| 0 <= i < n && order[i] == more[k] by {
            if k < fewer.len() {
                assert(more[k] == fewer[k]);
                let i = choose|i: int| 0 <= i < n - 1 && order[i] == fewer[k];
                assert(order[i] == more[k]);
            } else {
                assert(order[n - 1] == more[k]);
            }
        }
        assert forall|a: int, b: int| 0 <= a < b < more.len() implies ranks_before(
            keys,
            #[trigger] more[a],
            #[trigger] more[b],
        ) by {
            assert(more[a] == fewer[a]);
            if b < fewer.len() {
                assert(more[b] == fewer[b]);
            } else {
                let i = choose|i: int| 0 <= i < n - 1 && order[i] == fewer[a];
                assert(ranks_before(keys, order[i], order[n - 1]));
            }
        }
    }
}

/// The score of a forced section is at least 100 points and exceeds every
/// computed score, unless a computed score is the largest that can be held.
pub proof fn lemma_sentinel_exceeds_scores(scores: Seq<u64>)
    ensures
        sentinel_score(scores) >= 200,
        forall|i: int|
            0 <= i < scores.len() ==> #[trigger] scores[i] < sentinel_score(scores)
                || sentinel_score(scores) == u64::MAX,
{
    let order = ranking(scores);
    lemma_ranking_is_ranked(scores, scores.len());
    assert forall|i: int| 0 <= i < scores.len() implies #[trigger] scores[i] < sentinel_score(
        scores,
    ) || sentinel_score(scores) == u64::MAX by {
        assert(order.contains(i));
        let j = choose|j: int| 0 <= j < order.len() && order[j] == i;
        if j > 0 {
            assert(ranks_before(scores, order[0], order[j]));
        }
    }
}

/// Whether neither the title nor the content of a section holds the note
/// of the truncation marker.
pub open spec fn section_marker_free(section: SectionModel) -> bool {
    !occurs_in(marker_note(), section.title) && !occurs_in(marker_note(), section.content)
}

/// The block of a section that is free of the marker's note is free of it
/// and ends with a line feed.
pub proof fn lemma_hit_block_marker_free(section: SectionModel, score: u64)
    requires
        section_marker_free(section),
    ensures
        marker_free(hit_block(section, score)),
{
    let note = marker_note();
    lemma_marker_characters();
    reveal_strlit("## ");
    reveal_strlit(" (Relevance: ");
    reveal_strlit(")\n");
    reveal_strlit("\n\n");
    lemma_decimal_is_digits((score / 2) as nat);
    let shown = score_text(score);
    lemma_lacks("## "@, '[');
    lemma_lacks(" (Relevance: "@, ']');
    lemma_lacks(shown, ']');
    lemma_lacks(")\n"@, ']');
    lemma_lacks("\n\n"@, ']');
    let a1 = "## "@ + section.title;
    let a2 = a1 + " (Relevance: "@;
    let a3 = a2 + shown;
    let a4 = a3 + ")\n"@;
    let a5 = a4 + section.content;
    let a6 = a5 + "\n\n"@;
    if occurs_in(note, a1) {
        lemma_occurs_in_right(note, "## "@, section.title);
    }
    if occurs_in(note, a2) {
        lemma_occurs_in_left(note, a1, " (Relevance: "@);
    }
    if occurs_in(note, a3) {
        lemma_occurs_in_left(note, a2, shown);
    }
    if occurs_in(note, a4) {
        lemma_occurs_in_left(note, a3, ")\n"@);
    }
    assert(a4.last() == '\n');
    if occurs_in(note, a5) {
        lemma_occurs_on_one_side(note, a4, section.content);
    }
    if occurs_in(note, a6) {
        lemma_occurs_in_left(note, a5, "\n\n"@);
    }
    assert(a6.last() == '\n');
    assert(hit_block(section, score) == a6);
}

/// The section that `first_with_id` finds is one of the sections.
proof fn lemma_first_with_id_in_range(sections: Seq<SectionModel>, marker: Seq<char>)
    ensures
        first_with_id(sections, marker) matches Some(id) ==> 0 <= id < sections.len(),
    decreases sections.len(),
{
    if sections.len() > 0 {
        lemma_first_with_id_in_range(sections.drop_last(), marker);
    }
}

/// Every hit of a search is one of the sections.
pub proof fn lemma_search_hits_in_range(
    sections: Seq<SectionModel>,
    query: Seq<char>,
    max_results: nat,
)
    ensures
        forall|k: int|
            0 <= k < search_hits(sections, query, max_results).len() ==> 0 <= (
            #[trigger] search_hits(sections, query, max_results)[k]).id < sections.len(),
{
    let scores = section_scores(sections, terms(query));
    let sentinel = sentinel_score(scores);
    let organic = organic_hits(scores, max_results);
    let first = with_forced(organic, sections, "personal_identity"@, sentinel);
    let second = with_forced(first, sections, "personal_background"@, sentinel);
    lemma_organic_hits_are_ranked(scores, max_results);
    lemma_first_with_id_in_range(sections, "personal_identity"@);
    lemma_first_with_id_in_range(sections, "personal_background"@);
    assert forall|k: int| 0 <= k < first.len() implies 0 <= (#[trigger] first[k]).id
        < sections.len() by {
        if first != organic {
            if k > 0 {
                assert(first[k] == organic[k - 1]);
            }
        }
    }
    assert forall|k: int| 0 <= k < second.len() implies 0 <= (#[trigger] second[k]).id
        < sections.len() by {
        if second != first {
            if k > 0 {
                assert(second[k] == first[k - 1]);
            }
        }
    }
}

/// Truncation is signalled exactly once: where no title and no content
/// holds the marker's note, the marker stands in the result of a search
/// exactly when a part was left out for lack of budget, and then only once,
/// as its end.
pub proof fn lemma_search_marks_truncation_once(
    model: ProcessorModel,
    query: Seq<char>,
    max_results: nat,
)
    requires
        forall|i: int|
            0 <= i < model.sections.len() ==> section_marker_free(#[trigger] model.sections[i]),
    ensures
        ({
            let parts = search_parts(
                model.sections,
                search_hits(model.sections, query, max_results),
            );
            let out = search_text(model, query, max_results);
            let marker = truncation_marker();
            &&& fitting(parts, model.max_context_length) < parts.len() ==> out.len()
                >= marker.len() && out.subrange(out.len() - marker.len(), out.len() as int)
                == marker
            &&& forall|at: int|
                0 <= at && at + marker.len() <= out.len() && #[trigger] out.subrange(
                    at,
                    at + marker.len(),
                ) == marker ==> fitting(parts, model.max_context_length) < parts.len() && at
                    == out.len() - marker.len()
        }),
{
    let hits = search_hits(model.sections, query, max_results);
    let parts = search_parts(model.sections, hits);
    lemma_search_hits_in_range(model.sections, query, max_results);
    lemma_marker_characters();
    reveal_strlit("# RELEVANT CONTEXT\n\n");
    lemma_lacks("# RELEVANT CONTEXT\n\n"@, '[');
    crate::text::lemma_no_start_no_occurrence(marker_note(), "# RELEVANT CONTEXT\n\n"@);
    assert forall|k: int| 0 <= k < parts.len() implies marker_free(#[trigger] parts[k]) by {
        if k > 0 {
            let hit = hits[k - 1];
            assert(parts[k] == hit_block(model.sections[hit.id], hit.score));
            assert(section_marker_free(model.sections[hit.id]));
            lemma_hit_block_marker_free(model.sections[hit.id], hit.score);
        }
    }
    lemma_marker_only_at_end(parts, model.max_context_length);
}

/// Adding under the cap is adding, then capping.
proof fn lemma_capped_add(a: nat, b: nat)
    ensures
        capped(a + b) == capped((capped(a) + capped(b)) as nat),
{
}

/// Scaling under the cap is scaling, then capping.
proof fn lemma_capped_mul(a: nat, w: nat)
    requires
        w >= 1,
    ensures
        capped(a * w) == capped((capped(a) * w) as nat),
{
    if a > u64::MAX {
        assert(a * w >= a) by (nonlinear_arith)
            requires
                w >= 1,
        ;
        assert(u64::MAX * w >= u64::MAX) by (nonlinear_arith)
            requires
                w >= 1,
        ;
    }
}

/// A section found in a prefix is the first in the whole.
proof fn lemma_first_with_id_stays(sections: Seq<SectionModel>, marker: Seq<char>, n: int)
    requires
        0 <= n <= sections.len(),
        first_with_id(sections.take(n), marker) is Some,
    ensures
        first_with_id(sections, marker) == first_with_id(sections.take(n), marker),
    decreases sections.len() - n,
{
    if n < sections.len() {
        assert(sections.take(n + 1).drop_last() =~= sections.take(n));
        lemma_first_with_id_stays(sections, marker, n + 1);
    } else {
        assert(sections.take(n) =~= sections);
    }
}

/// Filtering a prefix gives a prefix of the filtered sequence.
proof fn lemma_filter_take(items: Seq<int>, keep: spec_fn(int) -> bool, n: int)
    requires
        0 <= n <= items.len(),
    ensures
        items.take(n).filter(keep) == items.filter(keep).take(
            items.take(n).filter(keep).len() as int,
        ),
        items.take(n).filter(keep).len() <= items.filter(keep).len(),
    decreases items.len() - n,
{
    if n < items.len() {
        lemma_filter_take(items, keep, n + 1);
        items.take(n).lemma_filter_push(items[n], keep);
        assert(items.take(n + 1) =~= items.take(n).push(items[n]));
        let short = items.take(n).filter(keep);
        let long = items.take(n + 1).filter(keep);
        let whole = items.filter(keep);
        assert(short =~= long.take(short.len() as int));
        assert(short =~= whole.take(short.len() as int));
    } else {
        assert(items.take(n) =~= items);
        assert(items.filter(keep).take(items.filter(keep).len() as int) =~= items.filter(keep));
    }
}

/// Twice the weight of `category`.
fn weight_of(category: &str) -> (weight: u64)
    ensures
        weight == category_weight(category@),
{
    if same_text(category, "personal") {
        4
    } else if same_text(category, "context") {
        3
    } else {
        2
    }
}

/// The number of `tags` that contain `word`.
fn count_tag_hits(tags: &Vec<String>, word: &str) -> (hits: u64)
    ensures
        hits == tag_hits(texts(tags@), word@),
{
    let mut hits: u64 = 0;
    let mut i: usize = 0;
    while i < tags.len()
        invariant
            i <= tags.len(),
            hits == tag_hits(texts(tags@).take(i as int), word@),
            hits <= i,
        decreases tags.len() - i,
    {
        proof {
            assert(texts(tags@).take(i + 1).drop_last() =~= texts(tags@).take(i as int));
        }
        if str_contains(tags[i].as_str(), word) {
            hits += 1;
        }
        i += 1;
    }
    assert(texts(tags@).take(i as int) =~= texts(tags@));
    hits
}

/// A score in half points as text.
fn render_score(score: u64) -> (out: String)
    ensures
        out@ == score_text(score),
{
    let whole = score / 2;
    let mut out = decimal_string(whole);
    out.push('.');
    out.push(if score % 2 == 1 { '5' } else { '0' });
    assert(out@ =~= score_text(score));
    out
}

impl MarkdownProcessor {
    /// The score of the section `id` for the query terms `query`.
    fn score_section(&self, id: usize, query: &Vec<String>) -> (score: u64)
        requires
            id < self@.sections.len(),
        ensures
            score == combined_score(self@.sections[id as int], texts(query@)),
    {
        let index = self.lexical_index();
        let sections = self.sections();
        let section = &sections[id];
        let ghost model = section@;
        assert(self@.sections[id as int] == model);
        assert(index@[id as int] == section_terms(model));
        let lower_title = section.title.as_str().to_lowercase();
        let mut total: u64 = 0;
        let mut k: usize = 0;
        while k < query.len()
            invariant
                k <= query.len(),
                id < index@.len(),
                index@[id as int] == section_terms(model),
                model == section@,
                lower_title@ == lowercase(model.title),
                total == capped(lexical_score(model, texts(query@).take(k as int))),
            decreases query.len() - k,
        {
            let word = &query[k];
            let occurrences = index.frequency(word.as_str(), id) as u64;
            let in_title: u64 = if str_contains(lower_title.as_str(), word.as_str()) {
                10
            } else {
                0
            };
            let in_tags = match count_tag_hits(&section.tags, word.as_str()).checked_mul(5) {
                Some(points) => points,
                None => u64::MAX,
            };
            let term = occurrences.saturating_add(in_title).saturating_add(in_tags);
            proof {
                let done = texts(query@).take(k as int);
                assert(texts(query@).take(k + 1).drop_last() =~= done);
                assert(texts(query@).take(k + 1).last() == word@);
                assert(term == capped(term_score(model, word@)));
                lemma_capped_add(lexical_score(model, done), term_score(model, word@));
            }
            total = total.saturating_add(term);
            k += 1;
        }
        assert(texts(query@).take(k as int) =~= texts(query@));
        let weight = weight_of(section.category.as_str());
        proof {
            lemma_capped_mul(lexical_score(model, texts(query@)), weight as nat);
        }
        match total.checked_mul(weight) {
            Some(score) => score,
            None => u64::MAX,
        }
    }

    /// The id of the first section whose id contains `marker`.
    fn find_core(&self, marker: &str) -> (found: Option<usize>)
        ensures
            match found {
                Some(id) => id < self@.sections.len() && first_with_id(self@.sections, marker@)
                    == Some(id as int),
                None => first_with_id(self@.sections, marker@) is None,
            },
    {
        let ghost sections = self@.sections;
        let held = self.sections();
        let mut i: usize = 0;
        while i < held.len()
            invariant
                i <= held.len(),
                sections == self@.sections,
                sections == section_models(held@),
                first_with_id(sections.take(i as int), marker@) is None,
            decreases held.len() - i,
        {
            proof {
                assert(sections.take(i + 1).drop_last() =~= sections.take(i as int));
                assert(sections.take(i + 1).last() == held@[i as int]@);
            }
            if str_contains(held[i].id.as_str(), marker) {
                proof {
                    lemma_first_with_id_stays(sections, marker@, i + 1);
                }
                return Some(i);
            }
            i += 1;
        }
        assert(sections.take(i as int) =~= sections);
        None
    }

    /// Puts the core section that `marker` names in front of `hits`, unless
    /// it is among them or does not exist.
    fn force(&self, hits: &mut Vec<(usize, u64)>, marker: &str, sentinel: u64)
        requires
            forall|k: int|
                0 <= k < old(hits).len() ==> (#[trigger] old(hits)@[k]).0 < self@.sections.len(),
        ensures
            hit_models(final(hits)@) == with_forced(
                hit_models(old(hits)@),
                self@.sections,
                marker@,
                sentinel,
            ),
            forall|k: int|
                0 <= k < final(hits).len() ==> (#[trigger] final(hits)@[k]).0
                    < self@.sections.len(),
    {
        match self.find_core(marker) {
            Some(id) => {
                let ghost models = hit_models(hits@);
                let mut present = false;
                let mut k: usize = 0;
                while k < hits.len() && !present
                    invariant
                        k <= hits.len(),
                        hits@ == old(hits)@,
                        models == hit_models(hits@),
                        !present ==> forall|j: int| 0 <= j < k ==> (#[trigger] models[j]).id != id,
                        present ==> holds_id(models, id as int),
                    decreases hits.len() - k + if present { 0int } else { 1int },
                {
                    if hits[k].0 == id {
                        assert(models[k as int].id == id);
                        present = true;
                    } else {
                        k += 1;
                    }
                }
                if present {
                    return ;
                }
                assert(!holds_id(models, id as int));
                hits.insert(0, (id, sentinel));
                assert(hit_models(hits@) =~= seq![Hit { id: id as int, score: sentinel }] + models);
            },
            None => {},
        }
    }

    /// Ranks the sections for `query` and renders the best as context: at
    /// most `max_results` sections with a positive score, best first, the
    /// core sections in front where the ranking left them out, each
    /// rendered as a block behind the heading, all under the character
    /// budget.
    pub fn search(&mut self, query: &str, max_results: usize) -> (out: String)
        ensures
            final(self)@ == old(self)@,
            out@ == search_text(old(self)@, query@, max_results as nat),
            out@.len() <= old(self)@.max_context_length + truncation_marker().len(),
    {
        let wanted = split_terms(query);
        let ghost sections = self@.sections;
        let ghost all = section_scores(sections, texts(wanted@));
        let count = self.get_section_count();
        let mut scores: Vec<u64> = Vec::new();
        let mut id: usize = 0;
        while id < count
            invariant
                id <= count,
                count == sections.len(),
                sections == self@.sections,
                all == section_scores(sections, texts(wanted@)),
                scores@ == all.take(id as int),
            decreases count - id,
        {
            let score = self.score_section(id, &wanted);
            scores.push(score);
            id += 1;
            assert(scores@ =~= all.take(id as int));
        }
        assert(all.take(id as int) =~= all);
        let order = rank_descending(&scores);
        let ghost positive = |id: int| all[id] > 0;
        let mut hits: Vec<(usize, u64)> = Vec::new();
        let mut p: usize = 0;
        proof {
            reveal(Seq::filter);
            assert(as_ints(order@).take(0).filter(positive) =~= Seq::<int>::empty());
        }
        while p < order.len() && hits.len() < max_results
            invariant
                p <= order.len(),
                order.len() == scores.len(),
                scores@ == all,
                all.len() == sections.len(),
                as_ints(order@) == ranking(all),
                positive == (|id: int| all[id] > 0),
                forall|k: int|
                    0 <= k < order.len() ==> 0 <= #[trigger] as_ints(order@)[k] < all.len(),
                hits.len() <= max_results,
                hits.len() == as_ints(order@).take(p as int).filter(positive).len(),
                hit_models(hits@) == as_ints(order@).take(p as int).filter(positive).map_values(
                    |id: int| Hit { id, score: all[id] },
                ),
                forall|k: int| 0 <= k < hits.len() ==> (#[trigger] hits@[k]).0 < sections.len(),
            decreases order.len() - p,
        {
            let candidate = order[p];
            proof {
                let done = as_ints(order@).take(p as int);
                done.lemma_filter_push(candidate as int, positive);
                assert(as_ints(order@).take(p + 1) =~= done.push(candidate as int));
                assert(0 <= as_ints(order@)[p as int] < all.len());
            }
            if scores[candidate] > 0 {
                let ghost before = hits@;
                hits.push((candidate, scores[candidate]));
                assert(hit_models(hits@) =~= hit_models(before).push(
                    Hit { id: candidate as int, score: all[candidate as int] },
                ));
                assert(hit_models(hits@) =~= as_ints(order@).take(p + 1).filter(
                    positive,
                ).map_values(|id: int| Hit { id, score: all[id] }));
            }
            p += 1;
        }
        proof {
            let ranked = as_ints(order@).filter(positive);
            let seen = as_ints(order@).take(p as int).filter(positive);
            if p == order.len() {
                assert(as_ints(order@).take(p as int) =~= as_ints(order@));
            } else {
                lemma_filter_take(as_ints(order@), positive, p as int);
            }
            assert(hit_models(hits@) == organic_hits(all, max_results as nat)) by {
                if p == order.len() {
                    assert(seen == ranked);
                } else {
                    assert(seen == ranked.take(max_results as int));
                }
            }
        }
        let top: u64 = if order.len() > 0 {
            assert(0 <= as_ints(order@)[0] < all.len());
            scores[order[0]]
        } else {
            0
        };
        let sentinel: u64 = if top >= 200 {
            top.saturating_add(1)
        } else {
            200
        };
        assert(sentinel == sentinel_score(all));
        self.force(&mut hits, "personal_identity", sentinel);
        self.force(&mut hits, "personal_background", sentinel);
        assert(hit_models(hits@) == search_hits(sections, query@, max_results as nat));
        let ghost shown = hit_models(hits@);
        let held = self.sections();
        let mut parts: Vec<String> = Vec::new();
        parts.push("# RELEVANT CONTEXT\n\n".to_owned());
        assert(texts(parts@) =~= search_parts(sections, shown.take(0)));
        let mut k: usize = 0;
        while k < hits.len()
            invariant
                k <= hits.len(),
                shown == hit_models(hits@),
                sections == section_models(held@),
                forall|j: int| 0 <= j < hits.len() ==> (#[trigger] hits@[j]).0 < sections.len(),
                texts(parts@) == search_parts(sections, shown.take(k as int)),
            decreases hits.len() - k,
        {
            let hit = hits[k];
            assert(hits@[k as int].0 < sections.len());
            let section = &held[hit.0];
            assert(section@ == sections[hit.0 as int]);
            let mut block = "## ".to_owned();
            block.append(section.title.as_str());
            block.append(" (Relevance: ");
            block.append(render_score(hit.1).as_str());
            block.append(")\n");
            block.append(section.content.as_str());
            block.append("\n\n");
            assert(block@ =~= hit_block(section@, hit.1));
            let ghost before = texts(parts@);
            let ghost written = block@;
            parts.push(block);
            assert(texts(parts@) =~= before.push(written));
            assert(shown.take(k + 1) =~= shown.take(k as int).push(shown[k as int]));
            assert(texts(parts@) =~= search_parts(sections, shown.take(k + 1)));
            k += 1;
        }
        assert(shown.take(k as int) =~= shown);
        assemble(&parts, self.budget())
    }
}

} // verus!
