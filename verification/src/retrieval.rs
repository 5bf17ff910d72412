//! Selector and reranker: orders scored chunks and picks a top-k in which no
//! document has more than its share.

use crate::models::{duplicate_text, optional_text, Chunk, ChunkModel};
use crate::ranking::{
    as_ints, is_nan, is_ranked, lemma_rank_key_orders, lemma_ranking_is_ranked, rank_descending,
    rank_key, ranking, ranks_before, score_is_nan, score_key, score_lt,
};
use std::collections::HashMap;
use vstd::prelude::*;

verus! {

broadcast use vstd::std_specs::hash::group_hash_axioms;

/// A chunk with its relevance. The score is the bit pattern of a
/// single-precision number.
pub struct ChunkWithScore {
    pub chunk: Chunk,
    pub score: u32,
    pub source_uri: Option<String>,
}

/// Mathematical form of a `ChunkWithScore`.
pub struct ScoredChunkModel {
    pub chunk: ChunkModel,
    pub score: u32,
    pub source_uri: Option<Seq<char>>,
}

impl View for ChunkWithScore {
    type V = ScoredChunkModel;

    open spec fn view(&self) -> ScoredChunkModel {
        ScoredChunkModel {
            chunk: self.chunk@,
            score: self.score,
            source_uri: optional_text(self.source_uri),
        }
    }
}

/// The models of a sequence of scored chunks.
pub open spec fn scored_models(chunks: Seq<ChunkWithScore>) -> Seq<ScoredChunkModel> {
    Seq::new(chunks.len(), |i: int| chunks[i]@)
}

/// How many of the positions `picked` have the source `source`.
pub open spec fn source_count(picked: Seq<int>, sources: Seq<u128>, source: u128) -> nat
    decreases picked.len(),
{
    if picked.len() == 0 {
        0
    } else {
        source_count(picked.drop_last(), sources, source) + if sources[picked.last()] == source {
            1nat
        } else {
            0nat
        }
    }
}

/// The positions accepted among the first `n` of a ranked sequence with the
/// sources `sources`: a position is accepted while fewer than `k` are, if
/// fewer than `cap` accepted positions have its source.
pub open spec fn selection_of(sources: Seq<u128>, n: nat, k: nat, cap: nat) -> Seq<int>
    decreases n,
{
    if n == 0 {
        Seq::empty()
    } else {
        let before = selection_of(sources, (n - 1) as nat, k, cap);
        if before.len() < k && source_count(before, sources, sources[n - 1]) < cap {
            before.push(n - 1)
        } else {
            before
        }
    }
}

/// The positions accepted from a whole ranked sequence.
pub open spec fn selection(sources: Seq<u128>, k: nat, cap: nat) -> Seq<int> {
    selection_of(sources, sources.len(), k, cap)
}

/// A selection holds at most `k` positions, no source more than `cap`
/// times, and its positions ascend, so the accepted keep their rank order.
pub proof fn lemma_selection_is_diverse(sources: Seq<u128>, n: nat, k: nat, cap: nat)
    requires
        n <= sources.len(),
    ensures
        selection_of(sources, n, k, cap).len() <= k,
        selection_of(sources, n, k, cap).len() <= n,
        forall|source: u128| source_count(selection_of(sources, n, k, cap), sources, source) <= cap,
        forall|i: int|
            0 <= i < selection_of(sources, n, k, cap).len() ==> 0 <= #[trigger] selection_of(
                sources,
                n,
                k,
                cap,
            )[i] < n,
        forall|i: int, j: int|
            0 <= i < j < selection_of(sources, n, k, cap).len() ==> selection_of(
                sources,
                n,
                k,
                cap,
            )[i] < selection_of(sources, n, k, cap)[j],
    decreases n,
{
    if n == 0 {
        assert forall|source: u128|
            source_count(selection_of(sources, n, k, cap), sources, source) <= cap by {}
    } else {
        let before = selection_of(sources, (n - 1) as nat, k, cap);
        lemma_selection_is_diverse(sources, (n - 1) as nat, k, cap);
        let after = selection_of(sources, n, k, cap);
        if after != before {
            assert(after.drop_last() =~= before);
            assert forall|source: u128| source_count(after, sources, source) <= cap by {
                assert(after.last() == n - 1);
                assert(source_count(before, sources, source) <= cap);
            }
            assert forall|i: int, j: int| 0 <= i < j < after.len() implies after[i] < after[j] by {
                if j == after.len() - 1 {
                    assert(after[i] == before[i]);
                } else {
                    assert(after[i] == before[i] && after[j] == before[j]);
                }
            }
            assert forall|i: int| 0 <= i < after.len() implies 0 <= #[trigger] after[i] < n by {
                if i < before.len() {
                    assert(after[i] == before[i]);
                }
            }
        } else {
            assert forall|i: int| 0 <= i < after.len() implies 0 <= #[trigger] after[i] < n by {
                assert(0 <= before[i] < n - 1);
            }
        }
    }
}

/// Walks a ranked sequence of sources and accepts positions under the
/// diversity cap until `k` are accepted.
pub fn select_diverse(sources: &Vec<u128>, k: usize, diversity_cap: usize) -> (picked: Vec<usize>)
    ensures
        as_ints(picked@) == selection(sources@, k as nat, diversity_cap as nat),
        picked.len() <= k,
        forall|source: u128|
            source_count(as_ints(picked@), sources@, source) <= diversity_cap,
        forall|i: int| 0 <= i < picked.len() ==> #[trigger] picked@[i] < sources.len(),
        forall|i: int, j: int| 0 <= i < j < picked.len() ==> picked@[i] < picked@[j],
{
    let mut picked: Vec<usize> = Vec::new();
    let mut counts: HashMap<u128, usize> = HashMap::new();
    let mut n: usize = 0;
    assert(as_ints(picked@) =~= selection_of(sources@, 0, k as nat, diversity_cap as nat));
    while n < sources.len()
        invariant
            n <= sources.len(),
            as_ints(picked@) == selection_of(sources@, n as nat, k as nat, diversity_cap as nat),
            forall|source: u128|
                source_count(as_ints(picked@), sources@, source) == if counts@.contains_key(
                    source,
                ) {
                    counts@[source] as nat
                } else {
                    0nat
                },
        decreases sources.len() - n,
    {
        proof {
            lemma_selection_is_diverse(sources@, n as nat, k as nat, diversity_cap as nat);
        }
        if picked.len() < k {
            let source = sources[n];
            let seen: usize = match counts.get(&source) {
                Some(count) => *count,
                None => 0,
            };
            assert(seen == source_count(as_ints(picked@), sources@, source));
            if seen < diversity_cap {
                let ghost before = as_ints(picked@);
                picked.push(n);
                counts.insert(source, seen + 1);
                assert(as_ints(picked@) =~= before.push(n as int));
                assert forall|other: u128|
                    source_count(as_ints(picked@), sources@, other) == source_count(
                        before,
                        sources@,
                        other,
                    ) + if source == other {
                        1nat
                    } else {
                        0nat
                    } by {
                    assert(as_ints(picked@).drop_last() =~= before);
                    assert(as_ints(picked@).last() == n);
                }
            }
        }
        n += 1;
    }
    proof {
        lemma_selection_is_diverse(sources@, sources@.len(), k as nat, diversity_cap as nat);
        assert forall|i: int| 0 <= i < picked.len() implies #[trigger] picked@[i]
            < sources.len() by {
            assert(as_ints(picked@)[i] == picked@[i]);
        }
        assert forall|i: int, j: int| 0 <= i < j < picked.len() implies picked@[i] < picked@[j] by {
            assert(as_ints(picked@)[i] == picked@[i]);
            assert(as_ints(picked@)[j] == picked@[j]);
        }
    }
    picked
}

/// The largest number of chunks of one document in a reranked result.
pub const DIVERSITY_CAP: usize = 2;

/// The score of chunk `i` after rescoring. Where the first chunk carries an
/// embedding, each chunk that carries one takes the similarity computed for
/// it; every other chunk keeps its score.
pub open spec fn rescored(chunks: Seq<ScoredChunkModel>, similarities: Seq<u32>, i: int) -> u32 {
    if chunks[0].chunk.embedding is Some && chunks[i].chunk.embedding is Some && i
        < similarities.len() {
        similarities[i]
    } else {
        chunks[i].score
    }
}

/// The rank keys of the rescored chunks.
pub open spec fn rescored_keys(chunks: Seq<ScoredChunkModel>, similarities: Seq<u32>) -> Seq<u64> {
    Seq::new(chunks.len(), |i: int| rank_key(rescored(chunks, similarities, i)) as u64)
}

/// Whether every rescored score is a number.
pub open spec fn scores_are_numbers(chunks: Seq<ScoredChunkModel>, similarities: Seq<u32>) -> bool {
    forall|i: int| 0 <= i < chunks.len() ==> !is_nan(#[trigger] rescored(chunks, similarities, i))
}

/// The document ids of the chunks in the order `order`.
pub open spec fn ranked_sources(chunks: Seq<ScoredChunkModel>, order: Seq<int>) -> Seq<u128> {
    Seq::new(order.len(), |p: int| chunks[order[p]].chunk.document_id)
}

/// The reranked result: the chunks rescored, ordered by descending score
/// with ties in their given order, and of these the first `top_k` that the
/// diversity cap admits.
pub open spec fn reranked(
    chunks: Seq<ScoredChunkModel>,
    similarities: Seq<u32>,
    top_k: nat,
) -> Seq<ScoredChunkModel> {
    let order = ranking(rescored_keys(chunks, similarities));
    let picked = selection(ranked_sources(chunks, order), top_k, DIVERSITY_CAP as nat);
    Seq::new(
        picked.len(),
        |p: int|
            ScoredChunkModel {
                score: rescored(chunks, similarities, order[picked[p]]),
                ..chunks[order[picked[p]]]
            },
    )
}

/// How many of `chunks` belong to the document `document_id`.
pub open spec fn document_count(chunks: Seq<ScoredChunkModel>, document_id: u128) -> nat
    decreases chunks.len(),
{
    if chunks.len() == 0 {
        0
    } else {
        document_count(chunks.drop_last(), document_id) + if chunks.last().chunk.document_id
            == document_id {
            1nat
        } else {
            0nat
        }
    }
}

/// The chunks picked from a ranked sequence hold as many of a document as
/// the picked positions do.
proof fn lemma_document_count(
    out: Seq<ScoredChunkModel>,
    picked: Seq<int>,
    sources: Seq<u128>,
    document_id: u128,
)
    requires
        out.len() == picked.len(),
        forall|p: int| 0 <= p < picked.len() ==> 0 <= #[trigger] picked[p] < sources.len(),
        forall|p: int|
            0 <= p < picked.len() ==> (#[trigger] out[p]).chunk.document_id == sources[picked[p]],
    ensures
        document_count(out, document_id) == source_count(picked, sources, document_id),
    decreases out.len(),
{
    if out.len() > 0 {
        let fewer = out.drop_last();
        let earlier = picked.drop_last();
        assert forall|p: int| 0 <= p < earlier.len() implies (#[trigger] fewer[p]).chunk.document_id
            == sources[earlier[p]] by {
            assert(fewer[p] == out[p]);
            assert(earlier[p] == picked[p]);
        }
        assert forall|p: int| 0 <= p < earlier.len() implies 0 <= #[trigger] earlier[p]
            < sources.len() by {
            assert(earlier[p] == picked[p]);
        }
        lemma_document_count(fewer, earlier, sources, document_id);
        assert(out[out.len() - 1].chunk.document_id == sources[picked[picked.len() - 1]]);
    }
}

/// A reranked result holds at most `top_k` chunks, of no document more
/// than the diversity cap admits, and its scores do not ascend.
pub proof fn lemma_reranked_is_diverse(
    chunks: Seq<ScoredChunkModel>,
    similarities: Seq<u32>,
    top_k: nat,
)
    ensures
        reranked(chunks, similarities, top_k).len() <= top_k,
        reranked(chunks, similarities, top_k).len() <= chunks.len(),
        forall|document_id: u128|
            document_count(reranked(chunks, similarities, top_k), document_id) <= DIVERSITY_CAP,
        forall|p: int, q: int|
            0 <= p < q < reranked(chunks, similarities, top_k).len() ==> !score_lt(
                (#[trigger] reranked(chunks, similarities, top_k)[p]).score,
                (#[trigger] reranked(chunks, similarities, top_k)[q]).score,
            ),
{
    let keys = rescored_keys(chunks, similarities);
    let order = ranking(keys);
    lemma_ranking_is_ranked(keys, keys.len());
    let sources = ranked_sources(chunks, order);
    let picked = selection(sources, top_k, DIVERSITY_CAP as nat);
    lemma_selection_is_diverse(sources, sources.len(), top_k, DIVERSITY_CAP as nat);
    let out = reranked(chunks, similarities, top_k);
    assert forall|document_id: u128| document_count(out, document_id) <= DIVERSITY_CAP by {
        lemma_document_count(out, picked, sources, document_id);
    }
    assert forall|p: int, q: int| 0 <= p < q < out.len() implies !score_lt(
        (#[trigger] out[p]).score,
        (#[trigger] out[q]).score,
    ) by {
        assert(picked[p] < picked[q]);
        assert(ranks_before(keys, order[picked[p]], order[picked[q]]));
        lemma_rank_key_orders(out[p].score, out[q].score);
    }
}

/// Rescores, ranks and selects. `similarities[i]` is the bit pattern of the
/// similarity between the query and the embedding of `chunks[i]`; it is
/// read only where that chunk carries an embedding. A score that is not a
/// number has no place in an order.
pub fn rerank_chunks(chunks: &[ChunkWithScore], similarities: &[u32], top_k: usize) -> (out:
    Vec<ChunkWithScore>)
    requires
        chunks.len() >= 2 ==> scores_are_numbers(scored_models(chunks@), similarities@),
    ensures
        scored_models(out@) == reranked(scored_models(chunks@), similarities@, top_k as nat),
        out.len() <= top_k,
        out.len() <= chunks.len(),
        forall|document_id: u128|
            document_count(scored_models(out@), document_id) <= DIVERSITY_CAP,
{
    let ghost models = scored_models(chunks@);
    let ghost all = rescored_keys(models, similarities@);
    let rescoring = chunks.len() > 0 && chunks[0].chunk.embedding.is_some();
    let mut scores: Vec<u32> = Vec::new();
    let mut keys: Vec<u64> = Vec::new();
    let mut i: usize = 0;
    while i < chunks.len()
        invariant
            i <= chunks.len(),
            models == scored_models(chunks@),
            all == rescored_keys(models, similarities@),
            rescoring == (chunks.len() > 0 && models[0].chunk.embedding is Some),
            keys@ == all.take(i as int),
            scores.len() == i,
            forall|j: int|
                0 <= j < i ==> #[trigger] scores@[j] == rescored(models, similarities@, j),
        decreases chunks.len() - i,
    {
        assert(models[i as int] == chunks@[i as int]@);
        let score = if rescoring && chunks[i].chunk.embedding.is_some() && i < similarities.len() {
            similarities[i]
        } else {
            chunks[i].score
        };
        scores.push(score);
        keys.push(score_key(score) as u64);
        i += 1;
        assert(keys@ =~= all.take(i as int));
    }
    assert(all.take(i as int) =~= all);
    let order = rank_descending(&keys);
    let ghost ranked = as_ints(order@);
    let mut sources: Vec<u128> = Vec::new();
    let mut p: usize = 0;
    while p < order.len()
        invariant
            p <= order.len(),
            order.len() == chunks.len(),
            models == scored_models(chunks@),
            ranked == as_ints(order@),
            is_ranked(ranked, keys@, keys@.len()),
            keys.len() == chunks.len(),
            sources@ == ranked_sources(models, ranked).take(p as int),
        decreases order.len() - p,
    {
        assert(0 <= ranked[p as int] < chunks.len());
        assert(ranked[p as int] == order@[p as int]);
        assert(models[order@[p as int] as int] == chunks@[order@[p as int] as int]@);
        sources.push(chunks[order[p]].chunk.document_id);
        p += 1;
        assert(sources@ =~= ranked_sources(models, ranked).take(p as int));
    }
    assert(ranked_sources(models, ranked).take(p as int) =~= ranked_sources(models, ranked));
    let picked = select_diverse(&sources, top_k, DIVERSITY_CAP);
    let ghost wanted = reranked(models, similarities@, top_k as nat);
    let mut out: Vec<ChunkWithScore> = Vec::new();
    let mut q: usize = 0;
    assert(scored_models(out@) =~= wanted.take(0));
    while q < picked.len()
        invariant
            q <= picked.len(),
            picked.len() <= top_k,
            order.len() == chunks.len(),
            sources.len() == order.len(),
            keys@ == all,
            keys.len() == chunks.len(),
            models == scored_models(chunks@),
            all == rescored_keys(models, similarities@),
            scores.len() == chunks.len(),
            forall|j: int|
                0 <= j < scores.len() ==> #[trigger] scores@[j] == rescored(
                    models,
                    similarities@,
                    j,
                ),
            ranked == as_ints(order@),
            ranked == ranking(all),
            is_ranked(ranked, keys@, keys@.len()),
            as_ints(picked@) == selection(
                ranked_sources(models, ranked),
                top_k as nat,
                DIVERSITY_CAP as nat,
            ),
            forall|i: int| 0 <= i < picked.len() ==> #[trigger] picked@[i] < sources.len(),
            wanted == reranked(models, similarities@, top_k as nat),
            wanted.len() == picked.len(),
            scored_models(out@) == wanted.take(q as int),
        decreases picked.len() - q,
    {
        assert(picked@[q as int] < sources.len());
        let position = order[picked[q]];
        proof {
            assert(as_ints(picked@)[q as int] == picked@[q as int]);
            assert(ranked[picked@[q as int] as int] == position);
            assert(0 <= ranked[picked@[q as int] as int] < chunks.len());
            assert(models[position as int] == chunks@[position as int]@);
            assert(all[position as int] == keys@[position as int]);
        }
        let source = &chunks[position];
        let item = ChunkWithScore {
            chunk: source.chunk.duplicate(),
            score: scores[position],
            source_uri: duplicate_text(&source.source_uri),
        };
        let ghost before = scored_models(out@);
        out.push(item);
        assert(scored_models(out@) =~= before.push(item@));
        q += 1;
        assert(scored_models(out@) =~= wanted.take(q as int));
    }
    assert(wanted.take(q as int) =~= wanted);
    proof {
        lemma_reranked_is_diverse(models, similarities@, top_k as nat);
    }
    out
}

/// Reranks where the scores can be ordered: two chunks or more are ranked
/// only if every rescored score is a number.
pub fn try_rerank_chunks(chunks: &[ChunkWithScore], similarities: &[u32], top_k: usize) -> (out:
    Option<Vec<ChunkWithScore>>)
    ensures
        out is Some <==> (chunks.len() >= 2 ==> scores_are_numbers(
            scored_models(chunks@),
            similarities@,
        )),
        out matches Some(ranked) ==> scored_models(ranked@) == reranked(
            scored_models(chunks@),
            similarities@,
            top_k as nat,
        ),
{
    let ghost models = scored_models(chunks@);
    if chunks.len() >= 2 {
        let rescoring = chunks[0].chunk.embedding.is_some();
        let mut i: usize = 0;
        while i < chunks.len()
            invariant
                i <= chunks.len(),
                chunks.len() >= 2,
                models == scored_models(chunks@),
                rescoring == (models[0].chunk.embedding is Some),
                forall|j: int|
                    0 <= j < i ==> !is_nan(#[trigger] rescored(models, similarities@, j)),
            decreases chunks.len() - i,
        {
            assert(models[i as int] == chunks@[i as int]@);
            let score = if rescoring && chunks[i].chunk.embedding.is_some() && i
                < similarities.len() {
                similarities[i]
            } else {
                chunks[i].score
            };
            if score_is_nan(score) {
                assert(is_nan(rescored(models, similarities@, i as int)));
                return None;
            }
            i += 1;
        }
    }
    Some(rerank_chunks(chunks, similarities, top_k))
}

} // verus!
