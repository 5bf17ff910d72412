//! Assembler: joins rendered parts into one context text under a character
//! budget, ending with a truncation marker when a part does not fit.

use crate::text::{lemma_occurs_on_one_side, occurs_in, texts};
use vstd::prelude::*;
use vstd::string::StringExecFns;
use vstd::string::StrSliceExecFns;

verus! {

/// The text that ends a context which had to leave parts out.
pub open spec fn truncation_marker() -> Seq<char> {
    "\n[Context truncated due to length limits]"@
}

/// The characters of `parts`, all together.
pub open spec fn total_len(parts: Seq<Seq<char>>) -> nat
    decreases parts.len(),
{
    if parts.len() == 0 {
        0
    } else {
        total_len(parts.drop_last()) + parts.last().len()
    }
}

/// The texts of `parts`, one after another.
pub open spec fn concat_parts(parts: Seq<Seq<char>>) -> Seq<char>
    decreases parts.len(),
{
    if parts.len() == 0 {
        Seq::empty()
    } else {
        concat_parts(parts.drop_last()) + parts.last()
    }
}

/// How many leading parts are appended: every part up to, and not
/// including, the first that would take the characters over `budget`.
pub open spec fn fitting(parts: Seq<Seq<char>>, budget: nat) -> nat
    decreases parts.len(),
{
    if parts.len() == 0 {
        0
    } else {
        let before = fitting(parts.drop_last(), budget);
        if before == parts.len() - 1 && total_len(parts) <= budget {
            before + 1
        } else {
            before
        }
    }
}

/// The assembled context: the parts that fit, then the truncation marker if
/// any part was left out.
pub open spec fn assembled(parts: Seq<Seq<char>>, budget: nat) -> Seq<char> {
    let kept = fitting(parts, budget);
    if kept < parts.len() {
        concat_parts(parts.take(kept as int)) + truncation_marker()
    } else {
        concat_parts(parts)
    }
}

/// Once a part has been refused, no later part is appended.
proof fn lemma_fitting_stops(parts: Seq<Seq<char>>, budget: nat, n: int)
    requires
        0 <= n <= parts.len(),
        fitting(parts.take(n), budget) < n,
    ensures
        fitting(parts, budget) == fitting(parts.take(n), budget),
    decreases parts.len() - n,
{
    if n < parts.len() {
        assert(parts.take(n + 1).drop_last() =~= parts.take(n));
        lemma_fitting_stops(parts, budget, n + 1);
    } else {
        assert(parts.take(n) =~= parts);
    }
}

/// The length of a concatenation is the sum of the lengths.
pub proof fn lemma_concat_len(parts: Seq<Seq<char>>)
    ensures
        concat_parts(parts).len() == total_len(parts),
    decreases parts.len(),
{
    if parts.len() > 0 {
        lemma_concat_len(parts.drop_last());
    }
}

/// The check comes before the append and is exact: the parts that are kept
/// are within the budget, each prefix of them too, and the first part that
/// is left out would have taken the characters over it.
pub proof fn lemma_fitting_is_first_overflow(parts: Seq<Seq<char>>, budget: nat)
    ensures
        fitting(parts, budget) <= parts.len(),
        forall|j: int|
            0 <= j <= fitting(parts, budget) ==> total_len(#[trigger] parts.take(j)) <= budget,
        fitting(parts, budget) < parts.len() ==> total_len(
            parts.take(fitting(parts, budget) as int + 1),
        ) > budget,
    decreases parts.len(),
{
    if parts.len() > 0 {
        let shorter = parts.drop_last();
        let before = fitting(shorter, budget);
        let kept = fitting(parts, budget);
        lemma_fitting_is_first_overflow(shorter, budget);
        assert forall|j: int| 0 <= j <= kept implies total_len(#[trigger] parts.take(j))
            <= budget by {
            if j <= before {
                assert(shorter.take(j) =~= parts.take(j));
            } else {
                assert(parts.take(j) =~= parts);
            }
        }
        if kept < parts.len() {
            if before < shorter.len() {
                assert(shorter.take(before as int + 1) =~= parts.take(before as int + 1));
            } else {
                assert(parts.take(kept as int + 1) =~= parts);
            }
        }
    } else {
        assert forall|j: int| 0 <= j <= 0 implies total_len(#[trigger] parts.take(j))
            <= budget by {
            assert(parts.take(j) =~= parts);
        }
    }
}

/// The budget is never exceeded and truncation is signalled at most once:
/// an assembled context is a prefix of the parts within the budget,
/// followed by the marker exactly when a part was left out, so its length
/// is at most the budget plus the length of the marker.
pub proof fn lemma_assembled_bounded(parts: Seq<Seq<char>>, budget: nat)
    ensures
        assembled(parts, budget).len() <= budget + truncation_marker().len(),
        exists|kept: int|
            0 <= kept <= parts.len() && total_len(parts.take(kept)) <= budget && assembled(
                parts,
                budget,
            ) == concat_parts(#[trigger] parts.take(kept)) + if kept < parts.len() {
                truncation_marker()
            } else {
                Seq::<char>::empty()
            },
{
    let kept = fitting(parts, budget) as int;
    lemma_fitting_is_first_overflow(parts, budget);
    assert(total_len(parts.take(kept)) <= budget);
    lemma_concat_len(parts.take(kept));
    if kept == parts.len() {
        assert(parts.take(kept) =~= parts);
        assert(concat_parts(parts) + Seq::<char>::empty() =~= concat_parts(parts));
    }
    assert(assembled(parts, budget) == concat_parts(parts.take(kept)) + if kept < parts.len() {
        truncation_marker()
    } else {
        Seq::<char>::empty()
    });
}

/// The note that the truncation marker shows, without the line feed before
/// it.
pub open spec fn marker_note() -> Seq<char> {
    "[Context truncated due to length limits]"@
}

/// Whether `part` can stand in a context without bringing a second marker
/// with it: it does not hold the marker's note, and ends, if it is not
/// empty, with a line feed.
pub open spec fn marker_free(part: Seq<char>) -> bool {
    !occurs_in(marker_note(), part) && (part.len() > 0 ==> part.last() == '\n')
}

/// What the characters of the marker are: a line feed, then the note, which
/// begins with an opening bracket, ends with a closing one, and holds
/// neither a second of either nor a line feed.
pub proof fn lemma_marker_characters()
    ensures
        marker_note().len() == 40,
        truncation_marker() == seq!['\n'] + marker_note(),
        marker_note()[0] == '[',
        marker_note()[39] == ']',
        forall|i: int| 0 < i < 40 ==> #[trigger] marker_note()[i] != '[',
        forall|i: int| 0 <= i < 39 ==> #[trigger] marker_note()[i] != ']',
        !marker_note().contains('\n'),
{
    reveal_strlit("[Context truncated due to length limits]");
    reveal_strlit("\n[Context truncated due to length limits]");
    let note = marker_note();
    assert(truncation_marker() =~= seq!['\n'] + note);
    assert forall|i: int| 0 <= i < 40 implies #[trigger] note[i] != '\n' && (i > 0 ==> note[i]
        != '[') && (i < 39 ==> note[i] != ']') by {}
    if note.contains('\n') {
        let i = choose|i: int| 0 <= i < note.len() && note[i] == '\n';
        assert(note[i] != '\n');
    }
}

/// Parts that are free of the marker's note are so when joined.
pub proof fn lemma_concat_marker_free(parts: Seq<Seq<char>>)
    requires
        forall|k: int| 0 <= k < parts.len() ==> marker_free(#[trigger] parts[k]),
    ensures
        marker_free(concat_parts(parts)),
    decreases parts.len(),
{
    let note = marker_note();
    lemma_marker_characters();
    if parts.len() == 0 {
        if occurs_in(note, concat_parts(parts)) {
            let i = choose|i: int|
                0 <= i && i + note.len() <= concat_parts(parts).len() && #[trigger] concat_parts(
                    parts,
                ).subrange(i, i + note.len()) == note;
        }
    } else {
        let fewer = parts.drop_last();
        assert forall|k: int| 0 <= k < fewer.len() implies marker_free(#[trigger] fewer[k]) by {
            assert(fewer[k] == parts[k]);
        }
        lemma_concat_marker_free(fewer);
        let left = concat_parts(fewer);
        let right = parts.last();
        assert(marker_free(parts[parts.len() - 1]));
        if left.len() == 0 {
            assert(left + right =~= right);
        } else if occurs_in(note, left + right) {
            lemma_occurs_on_one_side(note, left, right);
        }
    }
}

/// Where no part holds the marker's note and every part ends with a line
/// feed, the marker stands in an assembled context exactly when a part was
/// left out, and then only once, as its end.
pub proof fn lemma_marker_only_at_end(parts: Seq<Seq<char>>, budget: nat)
    requires
        forall|k: int| 0 <= k < parts.len() ==> marker_free(#[trigger] parts[k]),
    ensures
        ({
            let out = assembled(parts, budget);
            let marker = truncation_marker();
            &&& fitting(parts, budget) < parts.len() ==> out.len() >= marker.len() && out.subrange(
                out.len() - marker.len(),
                out.len() as int,
            ) == marker
            &&& forall|at: int|
                0 <= at && at + marker.len() <= out.len() && #[trigger] out.subrange(
                    at,
                    at + marker.len(),
                ) == marker ==> fitting(parts, budget) < parts.len() && at == out.len()
                    - marker.len()
        }),
{
    let out = assembled(parts, budget);
    let marker = truncation_marker();
    let note = marker_note();
    let kept = fitting(parts, budget) as int;
    lemma_marker_characters();
    lemma_fitting_is_first_overflow(parts, budget);
    let body = concat_parts(parts.take(kept));
    assert forall|k: int| 0 <= k < parts.take(kept).len() implies marker_free(
        #[trigger] parts.take(kept)[k],
    ) by {
        assert(parts.take(kept)[k] == parts[k]);
    }
    lemma_concat_marker_free(parts.take(kept));
    if kept == parts.len() {
        assert(parts.take(kept) =~= parts);
    } else {
        assert(out == body + marker);
        assert(out.subrange(out.len() - marker.len(), out.len() as int) =~= marker);
    }
    assert forall|at: int|
        0 <= at && at + marker.len() <= out.len() && #[trigger] out.subrange(
            at,
            at + marker.len(),
        ) == marker implies kept < parts.len() && at == out.len() - marker.len() by {
        let found = out.subrange(at, at + 41);
        let from = at + 1;
        assert(out.subrange(from, from + 40) =~= note) by {
            assert forall|i: int| 0 <= i < 40 implies out.subrange(from, from + 40)[i]
                == note[i] by {
                assert(found[i + 1] == marker[i + 1]);
            }
        }
        if from + 40 <= body.len() {
            assert(body.subrange(from, from + 40) =~= out.subrange(from, from + 40));
            assert(occurs_in(note, body));
        } else {
            assert(kept < parts.len());
            if from <= body.len() {
                let cut = body.len() - from;
                assert(out.subrange(from, from + 40)[cut] == out[body.len() as int]);
                assert(out[body.len() as int] == marker[0]);
                assert(note[cut] != '\n');
            }
        }
    }
}

/// Appends the parts in order while they fit. Before a part is appended its
/// length is added to the characters appended so far; if the sum would
/// exceed `max_context_length`, the truncation marker is appended in its
/// place and nothing more follows.
pub fn assemble(parts: &Vec<String>, max_context_length: usize) -> (out: String)
    ensures
        out@ == assembled(texts(parts@), max_context_length as nat),
        out@.len() <= max_context_length + truncation_marker().len(),
{
    let ghost models = texts(parts@);
    let ghost budget = max_context_length as nat;
    proof {
        lemma_assembled_bounded(models, budget);
    }
    let mut out = String::new();
    let mut charged: usize = 0;
    let mut i: usize = 0;
    while i < parts.len()
        invariant
            i <= parts.len(),
            models == texts(parts@),
            budget == max_context_length as nat,
            fitting(models.take(i as int), budget) == i,
            charged == total_len(models.take(i as int)),
            charged <= max_context_length,
            out@ == concat_parts(models.take(i as int)),
            assembled(models, budget).len() <= budget + truncation_marker().len(),
        decreases parts.len() - i,
    {
        proof {
            assert(models.take(i + 1).drop_last() =~= models.take(i as int));
            assert(models.take(i + 1).last() == parts@[i as int]@);
        }
        let size = parts[i].as_str().unicode_len();
        if size > max_context_length - charged {
            out.append("\n[Context truncated due to length limits]");
            proof {
                lemma_fitting_stops(models, budget, i + 1);
            }
            return out;
        }
        charged = charged + size;
        out.append(parts[i].as_str());
        i += 1;
    }
    assert(models.take(i as int) =~= models);
    out
}

} // verus!
