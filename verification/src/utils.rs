use sha2::{Digest, Sha256};
use vstd::prelude::*;
use vstd::string::StringExecFns;
use vstd::string::StringSliceAdditionalSpecFns;
use vstd::string::StrSliceExecFns;

verus! {

/// The text that `truncate_text` returns: `text` itself when its UTF-8 length
/// is within `max_chars`, otherwise its first `max_chars - 3` characters
/// followed by three dots.
pub open spec fn truncated(text: Seq<char>, max_chars: int) -> Seq<char> {
    if vstd::utf8::encode_utf8(text).len() <= max_chars {
        text
    } else if max_chars - 3 <= text.len() {
        text.take(max_chars - 3) + seq!['.', '.', '.']
    } else {
        text + seq!['.', '.', '.']
    }
}

/// Shortens `text` to fit a display budget, marking the cut with an ellipsis.
pub fn truncate_text(text: &str, max_chars: usize) -> (out: String)
    requires
        max_chars >= 3 || text.spec_bytes().len() <= max_chars,
    ensures
        out@ == truncated(text@, max_chars as int),
{
    if text.as_bytes().len() <= max_chars {
        text.to_owned()
    } else {
        let budget: usize = max_chars - 3;
        let total: usize = text.unicode_len();
        let keep: usize = if budget <= total { budget } else { total };
        let mut out = text.substring_char(0, keep).to_owned();
        proof {
            reveal_strlit("...");
            assert("..."@ =~= seq!['.', '.', '.']);
            assert(text@.subrange(0, total as int) =~= text@);
        }
        out.append("...");
        assert(out@ =~= truncated(text@, max_chars as int));
        out
    }
}

/// The SHA-256 digest of `data`.
pub uninterp spec fn sha256(data: Seq<u8>) -> Seq<u8>;

/// `sha2::Sha256`: a new hasher, updated with `data` and finalized. The
/// digest depends on `data` alone and is 32 bytes long.
#[verifier::external_body]
fn sha256_digest(data: &[u8]) -> (digest: Vec<u8>)
    ensures
        digest@ == sha256(data@),
        digest@.len() == 32,
{
    let mut hasher = Sha256::new();
    hasher.update(data);
    hasher.finalize().to_vec()
}

/// The lowercase hexadecimal digit for `d`, which is below sixteen.
pub open spec fn hex_char(d: nat) -> char {
    if d == 0 {
        '0'
    } else if d == 1 {
        '1'
    } else if d == 2 {
        '2'
    } else if d == 3 {
        '3'
    } else if d == 4 {
        '4'
    } else if d == 5 {
        '5'
    } else if d == 6 {
        '6'
    } else if d == 7 {
        '7'
    } else if d == 8 {
        '8'
    } else if d == 9 {
        '9'
    } else if d == 10 {
        'a'
    } else if d == 11 {
        'b'
    } else if d == 12 {
        'c'
    } else if d == 13 {
        'd'
    } else if d == 14 {
        'e'
    } else {
        'f'
    }
}

/// `bytes` in lowercase hexadecimal, two digits a byte.
pub open spec fn hex_lower(bytes: Seq<u8>) -> Seq<char>
    decreases bytes.len(),
{
    if bytes.len() == 0 {
        Seq::empty()
    } else {
        hex_lower(bytes.drop_last()) + seq![
            hex_char((bytes.last() / 16) as nat),
            hex_char((bytes.last() % 16) as nat),
        ]
    }
}

fn hex_digit(d: u8) -> (c: char)
    requires
        d < 16,
    ensures
        c == hex_char(d as nat),
{
    if d == 0 {
        '0'
    } else if d == 1 {
        '1'
    } else if d == 2 {
        '2'
    } else if d == 3 {
        '3'
    } else if d == 4 {
        '4'
    } else if d == 5 {
        '5'
    } else if d == 6 {
        '6'
    } else if d == 7 {
        '7'
    } else if d == 8 {
        '8'
    } else if d == 9 {
        '9'
    } else if d == 10 {
        'a'
    } else if d == 11 {
        'b'
    } else if d == 12 {
        'c'
    } else if d == 13 {
        'd'
    } else if d == 14 {
        'e'
    } else {
        'f'
    }
}

/// Writes `bytes` in lowercase hexadecimal.
pub fn to_hex(bytes: &Vec<u8>) -> (out: String)
    ensures
        out@ == hex_lower(bytes@),
        out@.len() == 2 * bytes.len(),
{
    let mut out = String::new();
    let mut i: usize = 0;
    while i < bytes.len()
        invariant
            i <= bytes.len(),
            out@ == hex_lower(bytes@.take(i as int)),
            out@.len() == 2 * i,
        decreases bytes.len() - i,
    {
        proof {
            assert(bytes@.take(i + 1).drop_last() =~= bytes@.take(i as int));
        }
        out.push(hex_digit(bytes[i] / 16));
        out.push(hex_digit(bytes[i] % 16));
        i += 1;
        assert(out@ =~= hex_lower(bytes@.take(i as int)));
    }
    assert(bytes@.take(i as int) =~= bytes@);
    out
}

/// The SHA-256 digest of `data` in lowercase hexadecimal: 64 digits.
pub fn calculate_sha256(data: &[u8]) -> (out: String)
    ensures
        out@ == hex_lower(sha256(data@)),
        out@.len() == 64,
{
    let digest = sha256_digest(data);
    to_hex(&digest)
}

} // verus!
