//! Chunker: splits sections into chunks of at most `max_tokens` tokens,
//! neighbouring chunks of one section sharing `overlap_tokens` tokens.

use crate::markdown::{MarkdownSection, SectionModel};
use crate::text::{
    clone_strings, join, joined, longest_blank_run, longest_word_run, measure_blank_run,
    measure_word_run, texts,
};
use vstd::prelude::*;

verus! {

/// Character offsets of a chunk in its document. For a chunk cut out of a
/// section they are estimated from token offsets.
#[derive(Clone, Copy, Debug, PartialEq, Eq, Structural)]
pub struct CharSpan {
    pub start_char: usize,
    pub end_char: usize,
}

/// Where a chunk stands in the outline of its document.
pub struct ChunkMetadata {
    pub heading_path: Vec<String>,
    pub level: usize,
    /// Position among the chunks of its section, from 0.
    pub chunk_index: usize,
}

/// A token-bounded slice of a section's content.
pub struct Chunk {
    pub content: String,
    /// The heading path, joined with `" > "`.
    pub section: String,
    pub tokens: usize,
    pub span: CharSpan,
    pub metadata: ChunkMetadata,
}

/// Mathematical form of a `Chunk`.
pub struct ChunkModel {
    pub content: Seq<char>,
    pub section: Seq<char>,
    pub tokens: nat,
    pub start_char: nat,
    pub end_char: nat,
    pub heading_path: Seq<Seq<char>>,
    pub level: nat,
    pub chunk_index: nat,
}

impl View for Chunk {
    type V = ChunkModel;

    open spec fn view(&self) -> ChunkModel {
        ChunkModel {
            content: self.content@,
            section: self.section@,
            tokens: self.tokens as nat,
            start_char: self.span.start_char as nat,
            end_char: self.span.end_char as nat,
            heading_path: texts(self.metadata.heading_path@),
            level: self.metadata.level as nat,
            chunk_index: self.metadata.chunk_index as nat,
        }
    }
}

/// The models of a sequence of chunks.
pub open spec fn chunk_models(chunks: Seq<Chunk>) -> Seq<ChunkModel> {
    Seq::new(chunks.len(), |i: int| chunks[i]@)
}

/// Why a section could not be chunked.
#[derive(Clone, Copy, Debug, PartialEq, Eq, Structural)]
pub enum ChunkError {
    /// The overlap is not smaller than the window.
    InvalidOverlap,
    /// The content holds a run of white space, or of characters that are
    /// not white space, longer than the tokenizer takes.
    RunTooLong,
    /// The estimated character offsets of a split section do not fit the
    /// machine's word.
    SpanOverflow,
    /// A window of tokens does not decode to text.
    Undecodable,
}

/// The model of a chunking result.
pub open spec fn outcome_model(outcome: Result<Vec<Chunk>, ChunkError>) -> Result<
    Seq<ChunkModel>,
    ChunkError,
> {
    match outcome {
        Ok(chunks) => Ok(chunk_models(chunks@)),
        Err(error) => Err(error),
    }
}

/// The largest token id of the `p50k_base` vocabulary.
pub const P50K_MAX_TOKEN: usize = 50280;

/// The longest run of white space in a text that is handed to the
/// tokenizer.
pub const MAX_BLANK_RUN: usize = 999998;

/// The longest run of characters other than white space in a text that is
/// handed to the tokenizer.
pub const MAX_WORD_RUN: usize = 999997;

/// Whether the tokenizer takes `text`: no run of white space and no run of
/// other characters is longer than its matcher can hold.
pub open spec fn tokenizable(text: Seq<char>) -> bool {
    longest_blank_run(text) <= MAX_BLANK_RUN && longest_word_run(text) <= MAX_WORD_RUN
}

/// The token ids that the `p50k_base` encoding gives to `text`, special
/// tokens included.
pub uninterp spec fn p50k_tokens(text: Seq<char>) -> Seq<usize>;

/// The text that the `p50k_base` encoding decodes `tokens` to, where their
/// bytes are valid UTF-8.
pub uninterp spec fn p50k_text(tokens: Seq<usize>) -> Option<Seq<char>>;

/// Whether every token is an id of the `p50k_base` vocabulary.
pub open spec fn in_vocabulary(tokens: Seq<usize>) -> bool {
    forall|i: int| 0 <= i < tokens.len() ==> #[trigger] tokens[i] <= P50K_MAX_TOKEN
}

/// `CoreBPE::encode_with_special_tokens` on the tokenizer that
/// `tiktoken_rs::p50k_base_singleton` holds. The result depends on the text
/// alone, and every id in it is a rank of the vocabulary file or the one
/// special token, all of which lie in `0..=50280`. The vocabulary holds
/// every single byte and its pattern matches at every position of a text,
/// so each piece of the text finds its tokens. The pattern's matcher
/// (`fancy_regex`) holds a stack of at most a million entries and the call
/// panics when it is full. A piece is a run of letters, of numbers, of other
/// characters or of white space, and the matcher keeps one entry for each
/// of its characters: beside two entries of its own for a run of white
/// space, and three for a run of other characters that follows a space.
/// Every piece lies within a run of white space or within a run of
/// characters that are not, so runs within the two bounds are safe.
#[verifier::external_body]
fn encode_p50k(text: &str) -> (tokens: Vec<usize>)
    requires
        tokenizable(text@),
    ensures
        tokens@ == p50k_tokens(text@),
        in_vocabulary(tokens@),
{
    tiktoken_rs::p50k_base_singleton().lock().encode_with_special_tokens(text)
}

/// `CoreBPE::decode` on the tokenizer that `tiktoken_rs::p50k_base_singleton`
/// holds: the bytes of the tokens as a string, or nothing where they are not
/// valid UTF-8. An id outside the vocabulary would make the call panic.
#[verifier::external_body]
fn decode_p50k(tokens: Vec<usize>) -> (text: Option<String>)
    requires
        in_vocabulary(tokens@),
    ensures
        match text {
            Some(decoded) => p50k_text(tokens@) == Some(decoded@),
            None => p50k_text(tokens@) is None,
        },
{
    tiktoken_rs::p50k_base_singleton().lock().decode(tokens).ok()
}

/// A window over a token sequence: the tokens `start..end`.
#[derive(Clone, Copy, Debug, PartialEq, Eq, Structural)]
pub struct Window {
    pub start: usize,
    pub end: usize,
}

/// Mathematical form of a `Window`.
pub struct WindowModel {
    pub start: nat,
    pub end: nat,
}

impl View for Window {
    type V = WindowModel;

    open spec fn view(&self) -> WindowModel {
        WindowModel { start: self.start as nat, end: self.end as nat }
    }
}

/// The models of a sequence of windows.
pub open spec fn window_models(windows: Seq<Window>) -> Seq<WindowModel> {
    Seq::new(windows.len(), |i: int| windows[i]@)
}

/// The windows over `count` tokens from `start` on: each is `max_tokens`
/// wide and starts `overlap` tokens before the end of the one before it; the
/// one that reaches the end of the tokens is the last.
pub open spec fn windows_from(start: nat, count: nat, max_tokens: nat, overlap: nat) -> Seq<
    WindowModel,
>
    decreases count - start,
{
    if overlap >= max_tokens || start + max_tokens >= count {
        seq![WindowModel { start, end: count }]
    } else {
        seq![WindowModel { start, end: start + max_tokens }] + windows_from(
            (start + max_tokens - overlap) as nat,
            count,
            max_tokens,
            overlap,
        )
    }
}

/// The windows over a sequence of `count` tokens.
pub open spec fn windows_over(count: nat, max_tokens: nat, overlap: nat) -> Seq<WindowModel> {
    windows_from(0, count, max_tokens, overlap)
}

/// The tokens that the windows hold, overlaps counted twice.
pub open spec fn window_tokens(windows: Seq<WindowModel>) -> int
    decreases windows.len(),
{
    if windows.len() == 0 {
        0
    } else {
        window_tokens(windows.drop_last()) + (windows.last().end - windows.last().start)
    }
}

/// The text of the tokens `tokens`, where all are in the vocabulary and
/// their bytes are valid UTF-8.
pub open spec fn window_text(tokens: Seq<usize>) -> Option<Seq<char>> {
    if in_vocabulary(tokens) {
        p50k_text(tokens)
    } else {
        None
    }
}

/// The one chunk of a section of `count` tokens that needs no split.
pub open spec fn whole_chunk(section: SectionModel, count: nat) -> ChunkModel {
    ChunkModel {
        content: section.content,
        section: joined(section.heading_path, " > "@),
        tokens: count,
        start_char: section.start_offset,
        end_char: section.end_offset,
        heading_path: section.heading_path,
        level: section.level,
        chunk_index: 0,
    }
}

/// The chunk for the window `window`, the `index`-th of a section of `count`
/// tokens, with the decoded text `text`. The span is estimated at three
/// characters a token, and pinned to the section's span at either end.
pub open spec fn window_chunk(
    section: SectionModel,
    count: nat,
    window: WindowModel,
    index: nat,
    text: Seq<char>,
) -> ChunkModel {
    ChunkModel {
        content: text,
        section: joined(section.heading_path, " > "@),
        tokens: (window.end - window.start) as nat,
        start_char: if window.start == 0 {
            section.start_offset
        } else {
            section.start_offset + 3 * window.start
        },
        end_char: if window.end == count {
            section.end_offset
        } else {
            section.start_offset + 3 * window.end
        },
        heading_path: section.heading_path,
        level: section.level,
        chunk_index: index,
    }
}

/// Whether each of the first `n` windows decodes to text.
pub open spec fn windows_decode(tokens: Seq<usize>, windows: Seq<WindowModel>, n: int) -> bool {
    forall|k: int|
        0 <= k < n ==> window_text(
            tokens.subrange((#[trigger] windows[k]).start as int, windows[k].end as int),
        ) is Some
}

/// The chunks of the windows `windows` over the tokens of `section`.
pub open spec fn window_chunks(
    section: SectionModel,
    tokens: Seq<usize>,
    windows: Seq<WindowModel>,
) -> Seq<ChunkModel> {
    Seq::new(
        windows.len(),
        |k: int|
            window_chunk(
                section,
                tokens.len(),
                windows[k],
                k as nat,
                window_text(tokens.subrange(windows[k].start as int, windows[k].end as int))->0,
            ),
    )
}

/// The chunks of a section whose content has the tokens `tokens`.
pub open spec fn chunked(
    section: SectionModel,
    tokens: Seq<usize>,
    max_tokens: nat,
    overlap: nat,
) -> Result<Seq<ChunkModel>, ChunkError> {
    let windows = windows_over(tokens.len(), max_tokens, overlap);
    if overlap >= max_tokens {
        Err(ChunkError::InvalidOverlap)
    } else if tokens.len() <= max_tokens {
        Ok(seq![whole_chunk(section, tokens.len())])
    } else if section.start_offset + 3 * tokens.len() > usize::MAX {
        Err(ChunkError::SpanOverflow)
    } else if !windows_decode(tokens, windows, windows.len() as int) {
        Err(ChunkError::Undecodable)
    } else {
        Ok(window_chunks(section, tokens, windows))
    }
}

/// The chunks of a section: those of the tokens of its content, unless the
/// overlap is refused or the content cannot be handed to the tokenizer.
pub open spec fn section_chunks(section: SectionModel, max_tokens: nat, overlap: nat) -> Result<
    Seq<ChunkModel>,
    ChunkError,
> {
    if overlap >= max_tokens {
        Err(ChunkError::InvalidOverlap)
    } else if !tokenizable(section.content) {
        Err(ChunkError::RunTooLong)
    } else {
        chunked(section, p50k_tokens(section.content), max_tokens, overlap)
    }
}

/// The chunks of `sections`, section after section; the first section that
/// cannot be chunked decides the error.
pub open spec fn chunked_all(sections: Seq<SectionModel>, max_tokens: nat, overlap: nat) -> Result<
    Seq<ChunkModel>,
    ChunkError,
>
    decreases sections.len(),
{
    if overlap >= max_tokens {
        Err(ChunkError::InvalidOverlap)
    } else if sections.len() == 0 {
        Ok(Seq::empty())
    } else {
        match chunked_all(sections.drop_last(), max_tokens, overlap) {
            Err(error) => Err(error),
            Ok(done) => match section_chunks(sections.last(), max_tokens, overlap) {
                Err(error) => Err(error),
                Ok(more) => Ok(done + more),
            },
        }
    }
}

/// The windows from `start` on are within the tokens, each but the last
/// `max_tokens` wide, and together they hold the tokens from `start` to the
/// end once the overlap of each window with the one before it is taken
/// off.
pub proof fn lemma_windows_cover(start: nat, count: nat, max_tokens: nat, overlap: nat)
    requires
        overlap < max_tokens,
        start < count,
    ensures
        windows_from(start, count, max_tokens, overlap).len() >= 1,
        window_tokens(windows_from(start, count, max_tokens, overlap)) - overlap * (windows_from(
            start,
            count,
            max_tokens,
            overlap,
        ).len() - 1) == count - start,
        forall|k: int|
            0 <= k < windows_from(start, count, max_tokens, overlap).len() ==> {
                let w = #[trigger] windows_from(start, count, max_tokens, overlap)[k];
                &&& start <= w.start < w.end <= count
                &&& w.end - w.start <= max_tokens
                &&& k + 1 < windows_from(start, count, max_tokens, overlap).len() ==> w.end
                    - w.start == max_tokens && w.end < count
                &&& k + 1 == windows_from(start, count, max_tokens, overlap).len() ==> w.end
                    == count
            },
    decreases count - start,
{
    let all = windows_from(start, count, max_tokens, overlap);
    if start + max_tokens >= count {
        assert(all.drop_last() =~= Seq::<WindowModel>::empty());
        assert(window_tokens(all.drop_last()) == 0);
        assert(window_tokens(all) == count - start);
    } else {
        let next = (start + max_tokens - overlap) as nat;
        let rest = windows_from(next, count, max_tokens, overlap);
        let head = seq![WindowModel { start, end: start + max_tokens }];
        lemma_windows_cover(next, count, max_tokens, overlap);
        lemma_window_tokens_concat(head, rest);
        assert(head.drop_last() =~= Seq::<WindowModel>::empty());
        assert(window_tokens(head.drop_last()) == 0);
        assert(window_tokens(head) == max_tokens);
        assert(overlap * (all.len() - 1) == overlap * (rest.len() - 1) + overlap)
            by (nonlinear_arith)
            requires
                all.len() == rest.len() + 1,
        ;
        assert forall|k: int| 0 <= k < all.len() implies {
            let w = #[trigger] all[k];
            &&& start <= w.start < w.end <= count
            &&& w.end - w.start <= max_tokens
            &&& k + 1 < all.len() ==> w.end - w.start == max_tokens && w.end < count
            &&& k + 1 == all.len() ==> w.end == count
        } by {
            if k > 0 {
                assert(all[k] == rest[k - 1]);
            }
        }
    }
}

/// The tokens of two runs of windows add up.
pub proof fn lemma_window_tokens_concat(a: Seq<WindowModel>, b: Seq<WindowModel>)
    ensures
        window_tokens(a + b) == window_tokens(a) + window_tokens(b),
    decreases b.len(),
{
    if b.len() == 0 {
        assert(a + b =~= a);
    } else {
        lemma_window_tokens_concat(a, b.drop_last());
        assert((a + b).drop_last() =~= a + b.drop_last());
    }
}

/// Plans the windows over `count` tokens.
pub fn plan_windows(count: usize, max_tokens: usize, overlap_tokens: usize) -> (windows: Vec<
    Window,
>)
    requires
        overlap_tokens < max_tokens,
    ensures
        window_models(windows@) == windows_over(
            count as nat,
            max_tokens as nat,
            overlap_tokens as nat,
        ),
{
    let ghost all = windows_over(count as nat, max_tokens as nat, overlap_tokens as nat);
    let mut windows: Vec<Window> = Vec::new();
    let mut start: usize = 0;
    assert(window_models(windows@) + all =~= all);
    while count - start > max_tokens
        invariant
            overlap_tokens < max_tokens,
            start <= count,
            all == window_models(windows@) + windows_from(
                start as nat,
                count as nat,
                max_tokens as nat,
                overlap_tokens as nat,
            ),
        decreases count - start,
    {
        let window = Window { start, end: start + max_tokens };
        let ghost before = window_models(windows@);
        windows.push(window);
        assert(window_models(windows@) =~= before.push(window@));
        start = start + max_tokens - overlap_tokens;
        assert(all =~= window_models(windows@) + windows_from(
            start as nat,
            count as nat,
            max_tokens as nat,
            overlap_tokens as nat,
        ));
    }
    let window = Window { start, end: count };
    let ghost before = window_models(windows@);
    windows.push(window);
    assert(window_models(windows@) =~= before.push(window@));
    windows
}

/// The text of the tokens `tokens[start..end]`.
fn decode_window(tokens: &Vec<usize>, start: usize, end: usize) -> (text: Option<String>)
    requires
        start <= end <= tokens.len(),
    ensures
        match text {
            Some(decoded) => window_text(tokens@.subrange(start as int, end as int)) == Some(
                decoded@,
            ),
            None => window_text(tokens@.subrange(start as int, end as int)) is None,
        },
{
    let ghost wanted = tokens@.subrange(start as int, end as int);
    let mut window: Vec<usize> = Vec::new();
    let mut i: usize = start;
    while i < end
        invariant
            start <= i <= end <= tokens.len(),
            wanted == tokens@.subrange(start as int, end as int),
            window@ == tokens@.subrange(start as int, i as int),
            in_vocabulary(window@),
        decreases end - i,
    {
        if tokens[i] > P50K_MAX_TOKEN {
            assert(wanted[i - start] == tokens@[i as int]);
            return None;
        }
        window.push(tokens[i]);
        i += 1;
        assert(window@ =~= tokens@.subrange(start as int, i as int));
    }
    decode_p50k(window)
}

/// Chunks a section whose content has the tokens `tokens`. A section of at
/// most `max_tokens` tokens becomes one chunk with the section's own
/// content and span. A longer one is cut into windows, each decoded to the
/// text of its chunk.
pub fn chunk_tokens(
    section: &MarkdownSection,
    tokens: &Vec<usize>,
    max_tokens: usize,
    overlap_tokens: usize,
) -> (outcome: Result<Vec<Chunk>, ChunkError>)
    ensures
        outcome_model(outcome) == chunked(
            section@,
            tokens@,
            max_tokens as nat,
            overlap_tokens as nat,
        ),
        overlap_tokens >= max_tokens <==> outcome == Err::<Vec<Chunk>, ChunkError>(
            ChunkError::InvalidOverlap,
        ),
        overlap_tokens < max_tokens && tokens.len() <= max_tokens ==> outcome is Ok
            && outcome->Ok_0.len() == 1 && outcome->Ok_0[0].content@ == section.content@,
{
    if overlap_tokens >= max_tokens {
        return Err(ChunkError::InvalidOverlap);
    }
    let count = tokens.len();
    if count <= max_tokens {
        let chunk = Chunk {
            content: section.content.clone(),
            section: join(&section.heading_path, " > "),
            tokens: count,
            span: CharSpan { start_char: section.start_offset, end_char: section.end_offset },
            metadata: ChunkMetadata {
                heading_path: clone_strings(&section.heading_path),
                level: section.level,
                chunk_index: 0,
            },
        };
        let mut chunks: Vec<Chunk> = Vec::new();
        chunks.push(chunk);
        assert(chunk_models(chunks@) =~= seq![whole_chunk(section@, count as nat)]);
        return Ok(chunks);
    }
    let fits = match count.checked_mul(3) {
        Some(width) => section.start_offset.checked_add(width).is_some(),
        None => false,
    };
    if !fits {
        return Err(ChunkError::SpanOverflow);
    }
    let windows = plan_windows(count, max_tokens, overlap_tokens);
    let ghost plan = window_models(windows@);
    proof {
        lemma_windows_cover(0, count as nat, max_tokens as nat, overlap_tokens as nat);
    }
    let mut chunks: Vec<Chunk> = Vec::new();
    let mut k: usize = 0;
    assert(chunk_models(chunks@) =~= window_chunks(section@, tokens@, plan).take(0));
    while k < windows.len()
        invariant
            k <= windows.len(),
            count == tokens.len(),
            overlap_tokens < max_tokens < count,
            plan == window_models(windows@),
            plan == windows_over(count as nat, max_tokens as nat, overlap_tokens as nat),
            section.start_offset + 3 * count <= usize::MAX,
            forall|j: int|
                0 <= j < plan.len() ==> (#[trigger] plan[j]).start < plan[j].end <= count,
            windows_decode(tokens@, plan, k as int),
            chunk_models(chunks@) == window_chunks(section@, tokens@, plan).take(k as int),
        decreases windows.len() - k,
    {
        let window = windows[k];
        assert(plan[k as int] == window@);
        let text = match decode_window(tokens, window.start, window.end) {
            Some(text) => text,
            None => {
                assert(window_text(
                    tokens@.subrange(plan[k as int].start as int, plan[k as int].end as int),
                ) is None);
                return Err(ChunkError::Undecodable);
            },
        };
        let chunk = Chunk {
            content: text,
            section: join(&section.heading_path, " > "),
            tokens: window.end - window.start,
            span: CharSpan {
                start_char: if window.start == 0 {
                    section.start_offset
                } else {
                    section.start_offset + window.start * 3
                },
                end_char: if window.end == count {
                    section.end_offset
                } else {
                    section.start_offset + window.end * 3
                },
            },
            metadata: ChunkMetadata {
                heading_path: clone_strings(&section.heading_path),
                level: section.level,
                chunk_index: k,
            },
        };
        let ghost before = chunk_models(chunks@);
        chunks.push(chunk);
        assert(chunk_models(chunks@) =~= before.push(chunk@));
        k += 1;
        assert(chunk_models(chunks@) =~= window_chunks(section@, tokens@, plan).take(k as int));
    }
    assert(window_chunks(section@, tokens@, plan).take(k as int) =~= window_chunks(
        section@,
        tokens@,
        plan,
    ));
    Ok(chunks)
}

/// Chunks one section: tokenizes its content and chunks the tokens. A
/// content that the tokenizer does not take is refused.
pub fn chunk_section(
    section: &MarkdownSection,
    max_tokens: usize,
    overlap_tokens: usize,
) -> (outcome: Result<Vec<Chunk>, ChunkError>)
    ensures
        outcome_model(outcome) == section_chunks(
            section@,
            max_tokens as nat,
            overlap_tokens as nat,
        ),
        overlap_tokens >= max_tokens <==> outcome == Err::<Vec<Chunk>, ChunkError>(
            ChunkError::InvalidOverlap,
        ),
{
    if overlap_tokens >= max_tokens {
        return Err(ChunkError::InvalidOverlap);
    }
    if measure_blank_run(section.content.as_str()) > MAX_BLANK_RUN || measure_word_run(
        section.content.as_str(),
    ) > MAX_WORD_RUN {
        return Err(ChunkError::RunTooLong);
    }
    let tokens = encode_p50k(section.content.as_str());
    chunk_tokens(section, &tokens, max_tokens, overlap_tokens)
}

/// Chunks every section in order. An overlap that is not smaller than
/// `max_tokens` is refused before any section is looked at; otherwise the
/// first section that cannot be chunked decides the error.
pub fn chunk_sections(
    sections: &[MarkdownSection],
    max_tokens: usize,
    overlap_tokens: usize,
) -> (outcome: Result<Vec<Chunk>, ChunkError>)
    ensures
        outcome_model(outcome) == chunked_all(
            crate::markdown::section_models(sections@),
            max_tokens as nat,
            overlap_tokens as nat,
        ),
        overlap_tokens >= max_tokens <==> outcome == Err::<Vec<Chunk>, ChunkError>(
            ChunkError::InvalidOverlap,
        ),
        overlap_tokens < max_tokens && sections.len() == 0 ==> outcome is Ok
            && outcome->Ok_0.len() == 0,
{
    if overlap_tokens >= max_tokens {
        return Err(ChunkError::InvalidOverlap);
    }
    let ghost models = crate::markdown::section_models(sections@);
    let mut chunks: Vec<Chunk> = Vec::new();
    let mut i: usize = 0;
    assert(chunk_models(chunks@) =~= Seq::<ChunkModel>::empty());
    while i < sections.len()
        invariant
            i <= sections.len(),
            overlap_tokens < max_tokens,
            models == crate::markdown::section_models(sections@),
            chunked_all(models.take(i as int), max_tokens as nat, overlap_tokens as nat) == Ok::<
                Seq<ChunkModel>,
                ChunkError,
            >(chunk_models(chunks@)),
        decreases sections.len() - i,
    {
        proof {
            assert(models.take(i + 1).drop_last() =~= models.take(i as int));
            assert(models.take(i + 1).last() == sections@[i as int]@);
        }
        match chunk_section(&sections[i], max_tokens, overlap_tokens) {
            Ok(mut more) => {
                let ghost before = chunk_models(chunks@);
                let ghost added = chunk_models(more@);
                chunks.append(&mut more);
                assert(chunk_models(chunks@) =~= before + added);
            },
            Err(error) => {
                proof {
                    lemma_chunked_all_fails(
                        models,
                        max_tokens as nat,
                        overlap_tokens as nat,
                        i + 1,
                    );
                }
                return Err(error);
            },
        }
        i += 1;
    }
    assert(models.take(i as int) =~= models);
    Ok(chunks)
}

/// An error among the first `n` sections is the error of all.
proof fn lemma_chunked_all_fails(
    sections: Seq<SectionModel>,
    max_tokens: nat,
    overlap: nat,
    n: int,
)
    requires
        0 <= n <= sections.len(),
        chunked_all(sections.take(n), max_tokens, overlap) is Err,
    ensures
        chunked_all(sections, max_tokens, overlap) == chunked_all(
            sections.take(n),
            max_tokens,
            overlap,
        ),
    decreases sections.len() - n,
{
    if n < sections.len() {
        assert(sections.take(n + 1).drop_last() =~= sections.take(n));
        lemma_chunked_all_fails(sections, max_tokens, overlap, n + 1);
    } else {
        assert(sections.take(n) =~= sections);
    }
}

/// The tokens that the chunks hold, overlaps counted twice.
pub open spec fn chunk_tokens_sum(chunks: Seq<ChunkModel>) -> int
    decreases chunks.len(),
{
    if chunks.len() == 0 {
        0
    } else {
        chunk_tokens_sum(chunks.drop_last()) + chunks.last().tokens
    }
}

/// Tokens that fit one window become exactly one chunk, and the chunk's
/// content is the section's content.
pub proof fn lemma_fitting_tokens_are_one_chunk(
    section: SectionModel,
    tokens: Seq<usize>,
    max_tokens: nat,
    overlap: nat,
)
    requires
        overlap < max_tokens,
        tokens.len() <= max_tokens,
    ensures
        chunked(section, tokens, max_tokens, overlap) is Ok,
        chunked(section, tokens, max_tokens, overlap)->Ok_0.len() == 1,
        chunked(section, tokens, max_tokens, overlap)->Ok_0[0].content == section.content,
{
}

/// Net forward coverage: where tokens are split, the token counts of the
/// chunks, less the overlap once for every chunk after the first, add up to
/// the number of tokens. The chunks follow each other in increasing token
/// offset, and each but the last holds exactly `max_tokens` tokens.
pub proof fn lemma_split_covers_tokens(
    section: SectionModel,
    tokens: Seq<usize>,
    max_tokens: nat,
    overlap: nat,
)
    requires
        tokens.len() > max_tokens,
        chunked(section, tokens, max_tokens, overlap) is Ok,
    ensures
        ({
            let chunks = chunked(section, tokens, max_tokens, overlap)->Ok_0;
            &&& chunks.len() >= 1
            &&& chunk_tokens_sum(chunks) - overlap * (chunks.len() - 1) == tokens.len()
            &&& forall|k: int|
                0 <= k < chunks.len() ==> (#[trigger] chunks[k]).chunk_index == k
                    && chunks[k].tokens <= max_tokens && (k + 1 < chunks.len()
                    ==> chunks[k].tokens == max_tokens)
        }),
{
    let windows = windows_over(tokens.len(), max_tokens, overlap);
    let chunks = chunked(section, tokens, max_tokens, overlap)->Ok_0;
    lemma_windows_cover(0, tokens.len(), max_tokens, overlap);
    assert(chunks == window_chunks(section, tokens, windows));
    lemma_chunk_tokens_match(section, tokens, windows, windows.len() as int);
    assert(chunks.take(chunks.len() as int) =~= chunks);
    assert(windows.take(windows.len() as int) =~= windows);
}

/// A section whose content has at most `max_tokens` tokens becomes exactly
/// one chunk, and the chunk's content is the section's content.
pub proof fn lemma_fitting_section_is_one_chunk(
    section: SectionModel,
    max_tokens: nat,
    overlap: nat,
)
    requires
        overlap < max_tokens,
        tokenizable(section.content),
        p50k_tokens(section.content).len() <= max_tokens,
    ensures
        section_chunks(section, max_tokens, overlap) is Ok,
        section_chunks(section, max_tokens, overlap)->Ok_0.len() == 1,
        section_chunks(section, max_tokens, overlap)->Ok_0[0].content == section.content,
{
}

/// Net forward coverage: for a section that is split, the token counts of
/// its chunks, less the overlap once for every chunk after the first, add up
/// to the token count of the section.
pub proof fn lemma_split_covers_section(section: SectionModel, max_tokens: nat, overlap: nat)
    requires
        p50k_tokens(section.content).len() > max_tokens,
        section_chunks(section, max_tokens, overlap) is Ok,
    ensures
        ({
            let chunks = section_chunks(section, max_tokens, overlap)->Ok_0;
            chunk_tokens_sum(chunks) - overlap * (chunks.len() - 1) == p50k_tokens(
                section.content,
            ).len()
        }),
{
    lemma_split_covers_tokens(section, p50k_tokens(section.content), max_tokens, overlap);
}

/// The smaller of two numbers.
pub open spec fn least(a: int, b: int) -> int {
    if a <= b {
        a
    } else {
        b
    }
}

/// The layout of the windows from `start` on: the `k`-th begins `k` steps
/// of `max_tokens - overlap` behind `start` and ends `max_tokens` tokens
/// on, or at the end of the tokens; and the windows are as many as it takes
/// steps to bring the end of a window to the end of the tokens, and one.
pub proof fn lemma_window_layout(start: nat, count: nat, max_tokens: nat, overlap: nat)
    requires
        overlap < max_tokens,
        start < count,
    ensures
        ({
            let windows = windows_from(start, count, max_tokens, overlap);
            let step = max_tokens - overlap;
            &&& windows.len() >= 1
            &&& forall|k: int|
                0 <= k < windows.len() ==> (#[trigger] windows[k]).start == start + k * step
                    && windows[k].end == least(start + k * step + max_tokens, count as int)
            &&& (windows.len() - 1) * step >= count - start - max_tokens
            &&& windows.len() >= 2 ==> (windows.len() - 2) * step < count - start - max_tokens
            &&& start + max_tokens < count ==> windows.len() >= 2
        }),
    decreases count - start,
{
    let windows = windows_from(start, count, max_tokens, overlap);
    let step = max_tokens - overlap;
    if start + max_tokens >= count {
        assert(0 * step == 0) by (nonlinear_arith);
    } else {
        let next = (start + step) as nat;
        let rest = windows_from(next, count, max_tokens, overlap);
        lemma_window_layout(next, count, max_tokens, overlap);
        assert(windows.len() == rest.len() + 1);
        assert forall|k: int| 0 <= k < windows.len() implies (#[trigger] windows[k]).start == start
            + k * step && windows[k].end == least(start + k * step + max_tokens, count as int) by {
            if k == 0 {
                assert(0 * step == 0) by (nonlinear_arith);
            } else {
                assert(windows[k] == rest[k - 1]);
                assert((k - 1) * step + step == k * step) by (nonlinear_arith);
            }
        }
        assert((windows.len() - 1) * step == (rest.len() - 1) * step + step) by (nonlinear_arith)
            requires
                windows.len() == rest.len() + 1,
        ;
        if rest.len() >= 2 {
            assert((windows.len() - 2) * step == (rest.len() - 2) * step + step)
                by (nonlinear_arith)
                requires
                    windows.len() == rest.len() + 1,
            ;
        } else {
            assert((windows.len() - 2) * step == 0) by (nonlinear_arith)
                requires
                    windows.len() == 2,
            ;
        }
    }
}

/// The layout of a split section: with `T` tokens and a step of
/// `max_tokens - overlap`, chunk `k` holds the decoded tokens from `k`
/// steps on to `max_tokens` further, or to the end; its index is `k`; and
/// the chunks are two at least, as many as it takes steps to bring the end
/// of a window to the end of the tokens, and one.
pub proof fn lemma_split_layout(
    section: SectionModel,
    tokens: Seq<usize>,
    max_tokens: nat,
    overlap: nat,
)
    requires
        tokens.len() > max_tokens,
        chunked(section, tokens, max_tokens, overlap) is Ok,
    ensures
        ({
            let chunks = chunked(section, tokens, max_tokens, overlap)->Ok_0;
            let step = max_tokens - overlap;
            &&& chunks.len() >= 2
            &&& (chunks.len() - 2) * step < tokens.len() - max_tokens <= (chunks.len() - 1) * step
            &&& forall|k: int|
                0 <= k < chunks.len() ==> {
                    let from = k * step;
                    let to = least(k * step + max_tokens, tokens.len() as int);
                    &&& (#[trigger] chunks[k]).chunk_index == k
                    &&& chunks[k].tokens == to - from
                    &&& window_text(tokens.subrange(from, to)) == Some(chunks[k].content)
                    &&& chunks[k].section == joined(section.heading_path, " > "@)
                    &&& chunks[k].heading_path == section.heading_path
                    &&& chunks[k].level == section.level
                }
        }),
{
    let windows = windows_over(tokens.len(), max_tokens, overlap);
    let chunks = chunked(section, tokens, max_tokens, overlap)->Ok_0;
    let step = max_tokens - overlap;
    lemma_window_layout(0, tokens.len(), max_tokens, overlap);
    lemma_windows_cover(0, tokens.len(), max_tokens, overlap);
    assert(chunks == window_chunks(section, tokens, windows));
    assert(windows_decode(tokens, windows, windows.len() as int));
    assert forall|k: int| 0 <= k < chunks.len() implies {
        let from = k * step;
        let to = least(k * step + max_tokens, tokens.len() as int);
        &&& (#[trigger] chunks[k]).chunk_index == k
        &&& chunks[k].tokens == to - from
        &&& window_text(tokens.subrange(from, to)) == Some(chunks[k].content)
        &&& chunks[k].section == joined(section.heading_path, " > "@)
        &&& chunks[k].heading_path == section.heading_path
        &&& chunks[k].level == section.level
    } by {
        let window = windows[k];
        assert(window.start == 0 + k * step);
        assert(window.start < window.end <= tokens.len());
        assert(window_text(tokens.subrange(window.start as int, window.end as int)) is Some);
        assert(chunks[k] == window_chunk(
            section,
            tokens.len(),
            window,
            k as nat,
            window_text(tokens.subrange(window.start as int, window.end as int))->0,
        ));
    }
}

/// Sections that each fit one window give one chunk each, in their order:
/// the chunk of a section has the section's content, its heading path and
/// level, the token count of the content, and the index 0.
pub proof fn lemma_fitting_sections_give_one_chunk_each(
    sections: Seq<SectionModel>,
    max_tokens: nat,
    overlap: nat,
)
    requires
        overlap < max_tokens,
        forall|i: int|
            0 <= i < sections.len() ==> tokenizable((#[trigger] sections[i]).content)
                && p50k_tokens(sections[i].content).len() <= max_tokens,
    ensures
        chunked_all(sections, max_tokens, overlap) is Ok,
        chunked_all(sections, max_tokens, overlap)->Ok_0.len() == sections.len(),
        forall|i: int|
            0 <= i < sections.len() ==> (#[trigger] chunked_all(
                sections,
                max_tokens,
                overlap,
            )->Ok_0[i]) == whole_chunk(sections[i], p50k_tokens(sections[i].content).len()),
    decreases sections.len(),
{
    if sections.len() > 0 {
        let fewer = sections.drop_last();
        assert forall|i: int| 0 <= i < fewer.len() implies tokenizable(
            (#[trigger] fewer[i]).content,
        ) && p50k_tokens(fewer[i].content).len() <= max_tokens by {
            assert(fewer[i] == sections[i]);
        }
        lemma_fitting_sections_give_one_chunk_each(fewer, max_tokens, overlap);
        let last = sections[sections.len() - 1];
        assert(tokenizable(last.content));
        let done = chunked_all(fewer, max_tokens, overlap)->Ok_0;
        let all = chunked_all(sections, max_tokens, overlap)->Ok_0;
        assert(all == done + seq![whole_chunk(last, p50k_tokens(last.content).len())]);
        assert forall|i: int| 0 <= i < sections.len() implies (#[trigger] all[i]) == whole_chunk(
            sections[i],
            p50k_tokens(sections[i].content).len(),
        ) by {
            if i < fewer.len() {
                assert(all[i] == done[i]);
                assert(fewer[i] == sections[i]);
            }
        }
    }
}

/// The chunks of the first `n` windows hold as many tokens as the windows.
proof fn lemma_chunk_tokens_match(
    section: SectionModel,
    tokens: Seq<usize>,
    windows: Seq<WindowModel>,
    n: int,
)
    requires
        0 <= n <= windows.len(),
        forall|k: int| 0 <= k < windows.len() ==> (#[trigger] windows[k]).start <= windows[k].end,
    ensures
        chunk_tokens_sum(window_chunks(section, tokens, windows).take(n)) == window_tokens(
            windows.take(n),
        ),
    decreases n,
{
    if n > 0 {
        lemma_chunk_tokens_match(section, tokens, windows, n - 1);
        assert(window_chunks(section, tokens, windows).take(n).drop_last() =~= window_chunks(
            section,
            tokens,
            windows,
        ).take(n - 1));
        assert(windows.take(n).drop_last() =~= windows.take(n - 1));
        assert(windows[n - 1].start <= windows[n - 1].end);
    }
}

/// A rough token count: one token for every four bytes of `text`.
pub fn estimate_tokens(text: &str) -> (estimate: usize)
    ensures
        estimate == vstd::utf8::encode_utf8(text@).len() / 4,
{
    text.as_bytes().len() / 4
}

} // verus!
