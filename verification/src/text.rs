//! Text primitives shared by the segmenter, the indexer and the assembler:
//! word splitting, normalisation, trimming, joining and decimal rendering,
//! each with a model over `Seq<char>`.

use vstd::prelude::*;
use vstd::string::StringExecFns;
use vstd::string::StrSliceExecFns;

verus! {

/// Whether `c` is Unicode white space, as the standard library classifies it.
pub uninterp spec fn white_space(c: char) -> bool;

/// Whether `c` is alphabetic or numeric, as the standard library classifies it.
pub uninterp spec fn alphanumeric(c: char) -> bool;

/// The lowercase form of `text` under the standard library's Unicode mapping.
pub uninterp spec fn lowercase(text: Seq<char>) -> Seq<char>;

/// `char::is_whitespace`: the result is the `White_Space` classification,
/// which `white_space` names.
pub assume_specification[ char::is_whitespace ](c: char) -> (b: bool)
    ensures
        b == white_space(c),
;

/// `char::is_alphanumeric`: the result is the classification as alphabetic
/// or numeric, which `alphanumeric` names.
pub assume_specification[ char::is_alphanumeric ](c: char) -> (b: bool)
    ensures
        b == alphanumeric(c),
;

/// `str::to_lowercase`: the result is the lowercase form of the whole
/// slice, which `lowercase` names; the mapping is not character by
/// character.
pub assume_specification[ str::to_lowercase ](s: &str) -> (out: String)
    ensures
        out@ == lowercase(s@),
;

/// `String::push`: appends one character.
pub assume_specification[ String::push ](s: &mut String, c: char)
    ensures
        final(s)@ == old(s)@.push(c),
;

/// Whether `needle` occurs in `hay` as a contiguous run of characters.
pub open spec fn occurs_in(needle: Seq<char>, hay: Seq<char>) -> bool {
    exists|i: int|
        0 <= i && i + needle.len() <= hay.len() && #[trigger] hay.subrange(
            i,
            i + needle.len(),
        ) == needle
}

/// `str::contains` with a string pattern: true exactly when the pattern
/// matches a sub-slice of `hay`.
#[verifier::external_body]
pub(crate) fn str_contains(hay: &str, needle: &str) -> (found: bool)
    ensures
        found == occurs_in(needle@, hay@),
{
    hay.contains(needle)
}

/// Whether two strings hold the same characters.
pub fn same_text(a: &str, b: &str) -> (same: bool)
    ensures
        same == (a@ == b@),
{
    a.to_owned() == b.to_owned()
}

/// The characters of each string of `v`.
pub open spec fn texts(v: Seq<String>) -> Seq<Seq<char>> {
    Seq::new(v.len(), |i: int| v[i]@)
}

/// A copy of `v`, string by string.
pub fn clone_strings(v: &Vec<String>) -> (out: Vec<String>)
    ensures
        out@ == v@,
{
    let mut out: Vec<String> = Vec::new();
    let mut i: usize = 0;
    while i < v.len()
        invariant
            i <= v.len(),
            out@ == v@.take(i as int),
        decreases v.len() - i,
    {
        out.push(v[i].clone());
        i += 1;
        assert(out@ =~= v@.take(i as int));
    }
    assert(v@.take(i as int) =~= v@);
    out
}

/// The characters of `s`, one vector element each.
pub fn to_chars(s: &str) -> (out: Vec<char>)
    ensures
        out@ == s@,
{
    let mut out: Vec<char> = Vec::new();
    for c in it: s.chars()
        invariant
            out@ == it.seq().take(it.index() as int),
            it.seq() == s@,
    {
        out.push(c);
    }
    out
}

/// The string made of the characters `chars[from..to]`.
pub fn from_chars(chars: &Vec<char>, from: usize, to: usize) -> (out: String)
    requires
        from <= to <= chars.len(),
    ensures
        out@ == chars@.subrange(from as int, to as int),
{
    let mut out = String::new();
    let mut i: usize = from;
    while i < to
        invariant
            from <= i <= to <= chars.len(),
            out@ == chars@.subrange(from as int, i as int),
        decreases to - i,
    {
        out.push(chars[i]);
        i += 1;
        assert(out@ =~= chars@.subrange(from as int, i as int));
    }
    out
}

/// State of a left-to-right scan for words: the words already closed by
/// white space, and the characters of the word still open.
pub open spec fn word_scan(text: Seq<char>) -> (Seq<Seq<char>>, Seq<char>)
    decreases text.len(),
{
    if text.len() == 0 {
        (Seq::empty(), Seq::empty())
    } else {
        let (closed, open) = word_scan(text.drop_last());
        if !white_space(text.last()) {
            (closed, open.push(text.last()))
        } else if open.len() > 0 {
            (closed.push(open), Seq::empty())
        } else {
            (closed, open)
        }
    }
}

/// The maximal runs of non-white-space characters of `text`, in order.
pub open spec fn words(text: Seq<char>) -> Seq<Seq<char>> {
    let (closed, open) = word_scan(text);
    if open.len() > 0 {
        closed.push(open)
    } else {
        closed
    }
}

/// State of a left-to-right scan for runs of one kind, white space where
/// `blank` holds and other characters where it does not: the length of the
/// run that ends the text, and of the longest run seen.
pub open spec fn run_scan(text: Seq<char>, blank: bool) -> (nat, nat)
    decreases text.len(),
{
    if text.len() == 0 {
        (0, 0)
    } else {
        let (open, longest) = run_scan(text.drop_last(), blank);
        if white_space(text.last()) != blank {
            (0, longest)
        } else if open + 1 > longest {
            ((open + 1) as nat, (open + 1) as nat)
        } else {
            ((open + 1) as nat, longest)
        }
    }
}

/// The length of the longest run of white space in `text`.
pub open spec fn longest_blank_run(text: Seq<char>) -> nat {
    run_scan(text, true).1
}

/// The length of the longest run of characters of `text` that are not
/// white space.
pub open spec fn longest_word_run(text: Seq<char>) -> nat {
    run_scan(text, false).1
}

/// Measures the longest run of white space in `text`.
pub fn measure_blank_run(text: &str) -> (longest: usize)
    ensures
        longest == longest_blank_run(text@),
{
    measure_run(text, true)
}

/// Measures the longest run of characters that are not white space.
pub fn measure_word_run(text: &str) -> (longest: usize)
    ensures
        longest == longest_word_run(text@),
{
    measure_run(text, false)
}

/// Measures the longest run of white space, where `blank` holds, or of
/// other characters.
pub fn measure_run(text: &str, blank: bool) -> (longest: usize)
    ensures
        longest == run_scan(text@, blank).1,
{
    let chars = to_chars(text);
    let mut open: usize = 0;
    let mut longest: usize = 0;
    let mut i: usize = 0;
    while i < chars.len()
        invariant
            i <= chars.len(),
            open <= longest <= i,
            run_scan(chars@.take(i as int), blank) == (open as nat, longest as nat),
        decreases chars.len() - i,
    {
        proof {
            assert(chars@.take(i + 1).drop_last() =~= chars@.take(i as int));
        }
        if chars[i].is_whitespace() == blank {
            open += 1;
            if open > longest {
                longest = open;
            }
        } else {
            open = 0;
        }
        i += 1;
    }
    assert(chars@.take(i as int) =~= chars@);
    longest
}

/// Whether `word` is a run of characters none of which is white space, at
/// least one long.
pub open spec fn is_word(word: Seq<char>) -> bool {
    word.len() > 0 && forall|i: int| 0 <= i < word.len() ==> !white_space(#[trigger] word[i])
}

/// The characters of the words `parts`, one word after another.
pub open spec fn letters(parts: Seq<Seq<char>>) -> Seq<char>
    decreases parts.len(),
{
    if parts.len() == 0 {
        Seq::empty()
    } else {
        letters(parts.drop_last()) + parts.last()
    }
}

/// The words of a text are runs without white space, none of them empty,
/// and together they hold the characters of the text that are not white
/// space, in order.
pub proof fn lemma_words_are_runs(text: Seq<char>)
    ensures
        forall|k: int| 0 <= k < words(text).len() ==> is_word(#[trigger] words(text)[k]),
        letters(words(text)) == text.filter(|c: char| !white_space(c)),
{
    lemma_word_scan(text);
    let (closed, open) = word_scan(text);
    if open.len() > 0 {
        assert(closed.push(open).drop_last() =~= closed);
        assert forall|k: int| 0 <= k < words(text).len() implies is_word(
            #[trigger] words(text)[k],
        ) by {
            if k < closed.len() {
                assert(words(text)[k] == closed[k]);
            }
        }
    } else {
        assert(letters(closed) + open =~= letters(closed));
    }
}

/// What holds of a scan: the closed words are words, the open one has no
/// white space, and together they hold what is not white space.
proof fn lemma_word_scan(text: Seq<char>)
    ensures
        forall|k: int|
            0 <= k < word_scan(text).0.len() ==> is_word(#[trigger] word_scan(text).0[k]),
        forall|i: int|
            0 <= i < word_scan(text).1.len() ==> !white_space(#[trigger] word_scan(text).1[i]),
        letters(word_scan(text).0) + word_scan(text).1 == text.filter(|c: char| !white_space(c)),
    decreases text.len(),
{
    let keep = |c: char| !white_space(c);
    if text.len() == 0 {
        reveal(Seq::filter);
        assert(letters(word_scan(text).0) + word_scan(text).1 =~= text.filter(keep));
    } else {
        let shorter = text.drop_last();
        let (closed, open) = word_scan(shorter);
        lemma_word_scan(shorter);
        shorter.lemma_filter_push(text.last(), keep);
        assert(shorter.push(text.last()) =~= text);
        if !white_space(text.last()) {
            assert(letters(closed) + open.push(text.last()) =~= (letters(closed) + open).push(
                text.last(),
            ));
            assert forall|i: int| 0 <= i < open.push(text.last()).len() implies !white_space(
                #[trigger] open.push(text.last())[i],
            ) by {
                if i < open.len() {
                    assert(open.push(text.last())[i] == open[i]);
                }
            }
        } else if open.len() > 0 {
            let grown = closed.push(open);
            assert(grown.drop_last() =~= closed);
            assert(letters(grown) + Seq::<char>::empty() =~= letters(closed) + open);
            assert forall|k: int| 0 <= k < grown.len() implies is_word(#[trigger] grown[k]) by {
                if k < closed.len() {
                    assert(grown[k] == closed[k]);
                }
            }
        }
    }
}

/// Splits `text` at white space; no word is empty.
pub fn split_words(text: &str) -> (out: Vec<String>)
    ensures
        texts(out@) == words(text@),
{
    let chars = to_chars(text);
    let mut out: Vec<String> = Vec::new();
    let mut start: usize = 0;
    let mut i: usize = 0;
    assert(texts(out@) =~= word_scan(chars@.take(0)).0);
    while i < chars.len()
        invariant
            start <= i <= chars.len(),
            texts(out@) == word_scan(chars@.take(i as int)).0,
            chars@.subrange(start as int, i as int) == word_scan(chars@.take(i as int)).1,
        decreases chars.len() - i,
    {
        proof {
            assert(chars@.take(i + 1).drop_last() =~= chars@.take(i as int));
        }
        if chars[i].is_whitespace() {
            if start < i {
                let word = from_chars(&chars, start, i);
                let ghost before = out@;
                out.push(word);
                assert(texts(out@) =~= texts(before).push(word@));
            }
            start = i + 1;
            assert(chars@.subrange(start as int, i + 1) =~= Seq::<char>::empty());
        } else {
            assert(chars@.subrange(start as int, i + 1) =~= chars@.subrange(
                start as int,
                i as int,
            ).push(chars@[i as int]));
        }
        i += 1;
    }
    assert(chars@.take(i as int) =~= chars@);
    if start < i {
        let word = from_chars(&chars, start, i);
        let ghost before = out@;
        out.push(word);
        assert(texts(out@) =~= texts(before).push(word@));
    }
    out
}

/// State of a left-to-right scan for fields: the fields already closed by a
/// separator, and the characters of the field still open.
pub open spec fn field_scan(text: Seq<char>, separator: char) -> (Seq<Seq<char>>, Seq<char>)
    decreases text.len(),
{
    if text.len() == 0 {
        (Seq::empty(), Seq::empty())
    } else {
        let (closed, open) = field_scan(text.drop_last(), separator);
        if text.last() == separator {
            (closed.push(open), Seq::empty())
        } else {
            (closed, open.push(text.last()))
        }
    }
}

/// The runs of `text` between separators, empty ones included; a text
/// without separator is one field.
pub open spec fn fields(text: Seq<char>, separator: char) -> Seq<Seq<char>> {
    let (closed, open) = field_scan(text, separator);
    closed.push(open)
}

/// Splits `text` at every `separator`.
pub fn split_fields(text: &str, separator: char) -> (out: Vec<String>)
    ensures
        texts(out@) == fields(text@, separator),
        out.len() >= 1,
{
    let chars = to_chars(text);
    let mut out: Vec<String> = Vec::new();
    let mut start: usize = 0;
    let mut i: usize = 0;
    assert(texts(out@) =~= field_scan(chars@.take(0), separator).0);
    while i < chars.len()
        invariant
            start <= i <= chars.len(),
            texts(out@) == field_scan(chars@.take(i as int), separator).0,
            chars@.subrange(start as int, i as int) == field_scan(
                chars@.take(i as int),
                separator,
            ).1,
        decreases chars.len() - i,
    {
        proof {
            assert(chars@.take(i + 1).drop_last() =~= chars@.take(i as int));
        }
        if chars[i] == separator {
            let field = from_chars(&chars, start, i);
            let ghost before = out@;
            out.push(field);
            assert(texts(out@) =~= texts(before).push(field@));
            start = i + 1;
            assert(chars@.subrange(start as int, i + 1) =~= Seq::<char>::empty());
        } else {
            assert(chars@.subrange(start as int, i + 1) =~= chars@.subrange(
                start as int,
                i as int,
            ).push(chars@[i as int]));
        }
        i += 1;
    }
    assert(chars@.take(i as int) =~= chars@);
    let field = from_chars(&chars, start, i);
    let ghost before = out@;
    out.push(field);
    assert(texts(out@) =~= texts(before).push(field@));
    out
}

/// A word reduced to its index form: lowercased, then stripped of every
/// character that is not alphanumeric.
pub open spec fn normalized(word: Seq<char>) -> Seq<char> {
    lowercase(word).filter(|c: char| alphanumeric(c))
}

/// Lowercases `word` and drops what is not alphanumeric.
pub fn normalize_word(word: &str) -> (out: String)
    ensures
        out@ == normalized(word@),
{
    let lower = word.to_lowercase();
    let chars = to_chars(lower.as_str());
    let mut out = String::new();
    let ghost keep = |c: char| alphanumeric(c);
    let mut i: usize = 0;
    proof {
        reveal(Seq::filter);
        assert(chars@.take(0).filter(keep) =~= Seq::<char>::empty());
    }
    while i < chars.len()
        invariant
            i <= chars.len(),
            keep == (|c: char| alphanumeric(c)),
            out@ == chars@.take(i as int).filter(keep),
        decreases chars.len() - i,
    {
        proof {
            chars@.take(i as int).lemma_filter_push(chars@[i as int], keep);
            assert(chars@.take(i + 1) =~= chars@.take(i as int).push(chars@[i as int]));
        }
        if chars[i].is_alphanumeric() {
            out.push(chars[i]);
        }
        i += 1;
    }
    assert(chars@.take(i as int) =~= chars@);
    out
}

/// The normalised words of `text`, empty results left out.
pub open spec fn terms(text: Seq<char>) -> Seq<Seq<char>> {
    words(text).map_values(|w: Seq<char>| normalized(w)).filter(|w: Seq<char>| w.len() > 0)
}

/// Splits `text` into words and normalises each, dropping those that
/// normalise to nothing.
pub fn split_terms(text: &str) -> (out: Vec<String>)
    ensures
        texts(out@) == terms(text@),
{
    let raw = split_words(text);
    let mut out: Vec<String> = Vec::new();
    let ghost norm = |w: Seq<char>| normalized(w);
    let ghost keep = |w: Seq<char>| w.len() > 0;
    let ghost all = texts(raw@).map_values(norm);
    let mut i: usize = 0;
    proof {
        reveal(Seq::filter);
        assert(all.take(0).filter(keep) =~= Seq::<Seq<char>>::empty());
        assert(texts(out@) =~= Seq::<Seq<char>>::empty());
    }
    while i < raw.len()
        invariant
            i <= raw.len(),
            keep == (|w: Seq<char>| w.len() > 0),
            all == texts(raw@).map_values(|w: Seq<char>| normalized(w)),
            texts(out@) == all.take(i as int).filter(keep),
        decreases raw.len() - i,
    {
        let term = normalize_word(raw[i].as_str());
        proof {
            assert(all[i as int] == term@);
            all.take(i as int).lemma_filter_push(all[i as int], keep);
            assert(all.take(i + 1) =~= all.take(i as int).push(all[i as int]));
        }
        if term.as_str().unicode_len() > 0 {
            let ghost before = out@;
            out.push(term);
            assert(texts(out@) =~= texts(before).push(term@));
        }
        i += 1;
    }
    assert(all.take(i as int) =~= all);
    out
}

/// Number of leading white-space characters of `text`.
pub open spec fn leading_blank(text: Seq<char>) -> nat
    decreases text.len(),
{
    if text.len() > 0 && white_space(text.first()) {
        1 + leading_blank(text.drop_first())
    } else {
        0
    }
}

/// Number of trailing white-space characters of `text`.
pub open spec fn trailing_blank(text: Seq<char>) -> nat
    decreases text.len(),
{
    if text.len() > 0 && white_space(text.last()) {
        1 + trailing_blank(text.drop_last())
    } else {
        0
    }
}

/// Whether every character of `text` is white space.
pub open spec fn is_blank(text: Seq<char>) -> bool {
    forall|i: int| 0 <= i < text.len() ==> white_space(#[trigger] text[i])
}

/// `text` without its leading and trailing white space.
pub open spec fn trimmed(text: Seq<char>) -> Seq<char> {
    if is_blank(text) {
        Seq::empty()
    } else {
        text.subrange(leading_blank(text) as int, text.len() - trailing_blank(text))
    }
}

/// The leading white space of `text` is its first `n` characters when those
/// are white space and the next one, if any, is not.
pub proof fn lemma_leading_blank(text: Seq<char>, n: int)
    requires
        0 <= n <= text.len(),
        forall|i: int| 0 <= i < n ==> white_space(#[trigger] text[i]),
        n < text.len() ==> !white_space(text[n]),
    ensures
        leading_blank(text) == n,
    decreases n,
{
    if n > 0 {
        let rest = text.drop_first();
        assert forall|i: int| 0 <= i < n - 1 implies white_space(#[trigger] rest[i]) by {
            assert(rest[i] == text[i + 1]);
        }
        lemma_leading_blank(rest, n - 1);
    }
}

/// The trailing white space of `text` is its last `n` characters when those
/// are white space and the one before them, if any, is not.
pub proof fn lemma_trailing_blank(text: Seq<char>, n: int)
    requires
        0 <= n <= text.len(),
        forall|i: int| text.len() - n <= i < text.len() ==> white_space(#[trigger] text[i]),
        n < text.len() ==> !white_space(text[text.len() - n - 1]),
    ensures
        trailing_blank(text) == n,
    decreases n,
{
    if n > 0 {
        let rest = text.drop_last();
        assert forall|i: int| rest.len() - (n - 1) <= i < rest.len() implies white_space(
            #[trigger] rest[i],
        ) by {
            assert(rest[i] == text[i]);
        }
        lemma_trailing_blank(rest, n - 1);
    }
}

/// The leading white space of a text is white space, and what follows it,
/// if anything, is not.
pub proof fn lemma_leading_blank_ends(text: Seq<char>)
    ensures
        leading_blank(text) <= text.len(),
        forall|i: int| 0 <= i < leading_blank(text) ==> white_space(#[trigger] text[i]),
        leading_blank(text) < text.len() ==> !white_space(text[leading_blank(text) as int]),
    decreases text.len(),
{
    if text.len() > 0 && white_space(text.first()) {
        let rest = text.drop_first();
        lemma_leading_blank_ends(rest);
        assert forall|i: int| 0 <= i < leading_blank(text) implies white_space(
            #[trigger] text[i],
        ) by {
            if i > 0 {
                assert(rest[i - 1] == text[i]);
            }
        }
        if leading_blank(text) < text.len() {
            assert(rest[leading_blank(rest) as int] == text[leading_blank(text) as int]);
        }
    }
}

/// The trailing white space of a text is white space, and what stands
/// before it, if anything, is not.
pub proof fn lemma_trailing_blank_ends(text: Seq<char>)
    ensures
        trailing_blank(text) <= text.len(),
        forall|i: int|
            text.len() - trailing_blank(text) <= i < text.len() ==> white_space(
                #[trigger] text[i],
            ),
        trailing_blank(text) < text.len() ==> !white_space(
            text[text.len() - trailing_blank(text) - 1],
        ),
    decreases text.len(),
{
    if text.len() > 0 && white_space(text.last()) {
        let rest = text.drop_last();
        lemma_trailing_blank_ends(rest);
        assert forall|i: int|
            text.len() - trailing_blank(text) <= i < text.len() implies white_space(
            #[trigger] text[i],
        ) by {
            if i < rest.len() {
                assert(rest[i] == text[i]);
            }
        }
        if trailing_blank(text) < text.len() {
            assert(rest[rest.len() - trailing_blank(rest) - 1] == text[text.len() - trailing_blank(
                text,
            ) - 1]);
        }
    }
}

/// Trimming a trimmed text changes nothing.
pub proof fn lemma_trimmed_twice(text: Seq<char>)
    ensures
        trimmed(trimmed(text)) == trimmed(text),
{
    if !is_blank(text) {
        lemma_leading_blank_ends(text);
        lemma_trailing_blank_ends(text);
        let from = leading_blank(text) as int;
        let to = text.len() - trailing_blank(text);
        let j = choose|j: int| 0 <= j < text.len() && !white_space(#[trigger] text[j]);
        assert(from <= j < to);
        let once = text.subrange(from, to);
        assert(once[0] == text[from]);
        assert(once[once.len() - 1] == text[to - 1]);
        lemma_leading_blank(once, 0);
        lemma_trailing_blank(once, 0);
        assert(once.subrange(0, once.len() as int) =~= once);
    }
}

/// Whether `text` holds nothing but white space.
pub fn blank(text: &str) -> (b: bool)
    ensures
        b == is_blank(text@),
{
    let mut all_blank = true;
    for c in it: text.chars()
        invariant
            it.seq() == text@,
            all_blank == is_blank(text@.take(it.index() as int)),
    {
        proof {
            let k = it.index() as int;
            if white_space(c) && all_blank {
                assert forall|i: int| 0 <= i < k + 1 implies white_space(
                    #[trigger] text@.take(k + 1)[i],
                ) by {
                    if i < k {
                        assert(text@.take(k)[i] == text@[i]);
                    }
                }
            } else if !white_space(c) {
                assert(text@.take(k + 1)[k] == c);
            } else {
                let j = choose|j: int| 0 <= j < k && !white_space(#[trigger] text@.take(k)[j]);
                assert(text@.take(k + 1)[j] == text@.take(k)[j]);
            }
        }
        all_blank = all_blank && c.is_whitespace();
    }
    assert(text@.take(text@.len() as int) =~= text@);
    all_blank
}

/// Removes leading and trailing white space.
pub fn trim(text: &str) -> (out: String)
    ensures
        out@ == trimmed(text@),
{
    let chars = to_chars(text);
    let mut from: usize = 0;
    while from < chars.len() && chars[from].is_whitespace()
        invariant
            from <= chars.len(),
            forall|i: int| 0 <= i < from ==> white_space(#[trigger] chars@[i]),
        decreases chars.len() - from,
    {
        from += 1;
    }
    if from == chars.len() {
        return String::new();
    }
    let mut to: usize = chars.len();
    while to > from + 1 && chars[to - 1].is_whitespace()
        invariant
            from < to <= chars.len(),
            !white_space(chars@[from as int]),
            forall|i: int| to <= i < chars.len() ==> white_space(#[trigger] chars@[i]),
        decreases to,
    {
        to -= 1;
    }
    proof {
        lemma_leading_blank(chars@, from as int);
        lemma_trailing_blank(chars@, chars.len() - to);
    }
    from_chars(&chars, from, to)
}

/// The decimal digit for `d`, which is below ten.
pub open spec fn digit_char(d: nat) -> char {
    if d == 0 {
        '0'
    } else if d == 1 {
        '1'
    } else if d == 2 {
        '2'
    } else if d == 3 {
        '3'
    } else if d == 4 {
        '4'
    } else if d == 5 {
        '5'
    } else if d == 6 {
        '6'
    } else if d == 7 {
        '7'
    } else if d == 8 {
        '8'
    } else {
        '9'
    }
}

/// The decimal numeral of `n`, without leading zeros.
pub open spec fn decimal(n: nat) -> Seq<char>
    decreases n,
{
    if n < 10 {
        seq![digit_char(n)]
    } else {
        decimal(n / 10).push(digit_char(n % 10))
    }
}

fn digit(d: u64) -> (c: char)
    requires
        d < 10,
    ensures
        c == digit_char(d as nat),
{
    if d == 0 {
        '0'
    } else if d == 1 {
        '1'
    } else if d == 2 {
        '2'
    } else if d == 3 {
        '3'
    } else if d == 4 {
        '4'
    } else if d == 5 {
        '5'
    } else if d == 6 {
        '6'
    } else if d == 7 {
        '7'
    } else if d == 8 {
        '8'
    } else {
        '9'
    }
}

/// Renders `n` in decimal.
pub fn decimal_string(n: u64) -> (out: String)
    ensures
        out@ == decimal(n as nat),
{
    let mut digits: Vec<char> = Vec::new();
    let mut rest: u64 = n;
    while rest >= 10
        invariant
            decimal(n as nat) == decimal(rest as nat) + digits@.reverse(),
        decreases rest,
    {
        let ghost before = digits@;
        digits.push(digit(rest % 10));
        assert(decimal(rest as nat) == decimal((rest / 10) as nat).push(
            digit_char((rest % 10) as nat),
        ));
        assert(digits@.reverse() =~= seq![digit_char((rest % 10) as nat)] + before.reverse());
        assert(decimal(rest as nat) + before.reverse() =~= decimal((rest / 10) as nat)
            + digits@.reverse());
        rest = rest / 10;
    }
    let mut out = String::new();
    out.push(digit(rest));
    let mut i: usize = digits.len();
    while i > 0
        invariant
            i <= digits.len(),
            out@ == decimal(rest as nat) + digits@.reverse().take(digits.len() - i),
            rest < 10,
        decreases i,
    {
        i -= 1;
        out.push(digits[i]);
        assert(digits@.reverse()[digits.len() - 1 - i] == digits@[i as int]);
        assert(out@ =~= decimal(rest as nat) + digits@.reverse().take(digits.len() - i));
    }
    assert(digits@.reverse().take(digits.len() as int) =~= digits@.reverse());
    out
}

/// A text none of whose characters is `c` does not hold `c`.
pub proof fn lemma_lacks(text: Seq<char>, c: char)
    requires
        forall|i: int| 0 <= i < text.len() ==> #[trigger] text[i] != c,
    ensures
        !text.contains(c),
{
    if text.contains(c) {
        let i = choose|i: int| 0 <= i < text.len() && text[i] == c;
        assert(text[i] != c);
    }
}

/// A text without the first character of a pattern does not hold the
/// pattern.
pub proof fn lemma_no_start_no_occurrence(pattern: Seq<char>, text: Seq<char>)
    requires
        pattern.len() > 0,
        !text.contains(pattern[0]),
    ensures
        !occurs_in(pattern, text),
{
    if occurs_in(pattern, text) {
        let i = choose|i: int|
            0 <= i && i + pattern.len() <= text.len() && #[trigger] text.subrange(
                i,
                i + pattern.len(),
            ) == pattern;
        assert(text.subrange(i, i + pattern.len())[0] == text[i]);
        assert(text.contains(text[i]));
    }
}

/// A pattern that occurs in two texts joined, the left of which is without
/// the pattern's first character, occurs in the right one.
pub proof fn lemma_occurs_in_right(pattern: Seq<char>, left: Seq<char>, right: Seq<char>)
    requires
        pattern.len() > 0,
        !left.contains(pattern[0]),
        occurs_in(pattern, left + right),
    ensures
        occurs_in(pattern, right),
{
    let joined = left + right;
    let n = pattern.len() as int;
    let i = choose|i: int|
        0 <= i && i + pattern.len() <= joined.len() && #[trigger] joined.subrange(
            i,
            i + pattern.len(),
        ) == pattern;
    assert(joined.subrange(i, i + n)[0] == joined[i]);
    if i < left.len() {
        assert(left.contains(left[i]));
    }
    assert(right.subrange(i - left.len(), i - left.len() + n) =~= joined.subrange(i, i + n));
}

/// A pattern that occurs in two texts joined, the right of which is
/// without the pattern's last character, occurs in the left one.
pub proof fn lemma_occurs_in_left(pattern: Seq<char>, left: Seq<char>, right: Seq<char>)
    requires
        pattern.len() > 0,
        !right.contains(pattern.last()),
        occurs_in(pattern, left + right),
    ensures
        occurs_in(pattern, left),
{
    let joined = left + right;
    let n = pattern.len() as int;
    let i = choose|i: int|
        0 <= i && i + pattern.len() <= joined.len() && #[trigger] joined.subrange(
            i,
            i + pattern.len(),
        ) == pattern;
    assert(joined.subrange(i, i + n)[n - 1] == joined[i + n - 1]);
    if i + n > left.len() {
        assert(right.contains(right[i + n - 1 - left.len()]));
    }
    assert(left.subrange(i, i + n) =~= joined.subrange(i, i + n));
}

/// A pattern that occurs in two texts joined, the left of which ends with a
/// character that the pattern does not hold, occurs in one of the two.
pub proof fn lemma_occurs_on_one_side(pattern: Seq<char>, left: Seq<char>, right: Seq<char>)
    requires
        left.len() > 0,
        !pattern.contains(left.last()),
        occurs_in(pattern, left + right),
    ensures
        occurs_in(pattern, left) || occurs_in(pattern, right),
{
    let joined = left + right;
    let n = pattern.len() as int;
    let i = choose|i: int|
        0 <= i && i + pattern.len() <= joined.len() && #[trigger] joined.subrange(
            i,
            i + pattern.len(),
        ) == pattern;
    if i + n <= left.len() {
        assert(left.subrange(i, i + n) =~= joined.subrange(i, i + n));
    } else if i >= left.len() {
        assert(right.subrange(i - left.len(), i - left.len() + n) =~= joined.subrange(i, i + n));
    } else {
        let at = left.len() - 1 - i;
        assert(joined.subrange(i, i + n)[at] == joined[left.len() - 1]);
        assert(pattern.contains(pattern[at]));
    }
}

/// A decimal numeral holds nothing but digits.
pub proof fn lemma_decimal_is_digits(n: nat)
    ensures
        forall|i: int|
            0 <= i < decimal(n).len() ==> '0' <= #[trigger] decimal(n)[i] <= '9',
    decreases n,
{
    if n >= 10 {
        lemma_decimal_is_digits(n / 10);
        assert forall|i: int| 0 <= i < decimal(n).len() implies '0' <= #[trigger] decimal(n)[i]
            <= '9' by {
            if i < decimal(n / 10).len() {
                assert(decimal(n)[i] == decimal(n / 10)[i]);
            }
        }
    }
}

/// The parts of `parts` written one after another with `sep` between
/// neighbours.
pub open spec fn joined(parts: Seq<Seq<char>>, sep: Seq<char>) -> Seq<char>
    decreases parts.len(),
{
    if parts.len() == 0 {
        Seq::empty()
    } else if parts.len() == 1 {
        parts[0]
    } else {
        joined(parts.drop_last(), sep) + sep + parts.last()
    }
}

/// Concatenates `parts`, separated by `sep`.
pub fn join(parts: &Vec<String>, sep: &str) -> (out: String)
    ensures
        out@ == joined(texts(parts@), sep@),
{
    let mut out = String::new();
    let mut i: usize = 0;
    while i < parts.len()
        invariant
            i <= parts.len(),
            out@ == joined(texts(parts@).take(i as int), sep@),
        decreases parts.len() - i,
    {
        proof {
            assert(texts(parts@).take(i + 1).drop_last() =~= texts(parts@).take(i as int));
        }
        if i > 0 {
            out.append(sep);
        }
        out.append(parts[i].as_str());
        i += 1;
        assert(out@ =~= joined(texts(parts@).take(i as int), sep@));
    }
    assert(texts(parts@).take(i as int) =~= texts(parts@));
    out
}

} // verus!
