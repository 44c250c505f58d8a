//! Text helpers: substring tests, normalisation and the content hash.
use vstd::prelude::*;
use vstd::utf8::encode_utf8;

verus! {

/// `p` occurs somewhere in `s` as a contiguous run.
pub open spec fn has_substring(s: Seq<char>, p: Seq<char>) -> bool {
    exists|i: int| 0 <= i && i + p.len() <= s.len() && #[trigger] s.subrange(i, i + p.len()) == p
}

/// What `str::to_lowercase` makes of a string.
pub uninterp spec fn lower_of(s: Seq<char>) -> Seq<char>;

/// What `str::trim` leaves of a string.
pub uninterp spec fn trim_of(s: Seq<char>) -> Seq<char>;

/// The words that `str::split_whitespace` yields, in order.
pub uninterp spec fn words_of(s: Seq<char>) -> Seq<Seq<char>>;

/// The lower-case hexadecimal rendering of the SHA-256 digest of `b`.
pub uninterp spec fn sha256_hex(b: Seq<u8>) -> Seq<char>;

/// Words joined by single spaces.
pub open spec fn joined(ws: Seq<Seq<char>>) -> Seq<char>
    decreases ws.len(),
{
    if ws.len() == 0 {
        Seq::empty()
    } else if ws.len() == 1 {
        ws[0]
    } else {
        joined(ws.drop_last()) + seq![' '] + ws.last()
    }
}

/// Canonical form of a text: lower-cased, whitespace runs collapsed to one
/// space, trimmed.
pub open spec fn normalized(s: Seq<char>) -> Seq<char> {
    trim_of(joined(words_of(lower_of(s))))
}

/// Identity key of a text: the digest of the UTF-8 bytes of its canonical form.
pub open spec fn text_hash(s: Seq<char>) -> Seq<char> {
    sha256_hex(encode_utf8(normalized(s)))
}

/// Relies on `str::contains` with a `&str` pattern: true exactly when `p`
/// occurs in `s`.
#[verifier::external_body]
pub(crate) fn str_contains(s: &str, p: &str) -> (r: bool)
    ensures
        r == has_substring(s@, p@),
{
    s.contains(p)
}

/// Relies on `str::to_lowercase`: the result depends on the characters alone.
#[verifier::external_body]
pub(crate) fn lowercase(s: &str) -> (r: String)
    ensures
        r@ == lower_of(s@),
{
    s.to_lowercase()
}

/// Relies on `str::trim`: the result depends on the characters alone.
#[verifier::external_body]
pub(crate) fn trim(s: &str) -> (r: String)
    ensures
        r@ == trim_of(s@),
{
    s.trim().to_string()
}

/// Relies on `str::split_whitespace`: the words, in order, each copied out.
#[verifier::external_body]
pub(crate) fn split_words(s: &str) -> (r: Vec<String>)
    ensures
        r@.map_values(|w: String| w@) == words_of(s@),
{
    s.split_whitespace().map(|w| w.to_string()).collect()
}

/// Relies on `sha2::Sha256::digest`, rendered with `{:x}`: lower-case hex of
/// the 32-byte digest, two digits per byte.
#[verifier::external_body]
pub(crate) fn sha256_hex_of(b: &[u8]) -> (r: String)
    ensures
        r@ == sha256_hex(b@),
        r@.len() == 64,
{
    format!("{:x}", <sha2::Sha256 as sha2::Digest>::digest(b))
}

/// Joins words with single spaces.
pub fn join_words(words: &Vec<String>) -> (r: String)
    ensures
        r@ == joined(words@.map_values(|w: String| w@)),
{
    let mut out = String::new();
    let mut i: usize = 0;
    while i < words.len()
        invariant
            i <= words.len(),
            out@ == joined(words@.subrange(0, i as int).map_values(|w: String| w@)),
        decreases words.len() - i,
    {
        proof {
            let pre = words@.subrange(0, i as int).map_values(|w: String| w@);
            let next = words@.subrange(0, i as int + 1).map_values(|w: String| w@);
            assert(next.drop_last() =~= pre);
            assert(next.last() == words@[i as int]@);
        }
        if i > 0 {
            proof {
                reveal_strlit(" ");
            }
            out.append(" ");
        }
        out.append(words[i].as_str());
        proof {
            let next = words@.subrange(0, i as int + 1).map_values(|w: String| w@);
            assert(out@ =~= joined(next));
        }
        i = i + 1;
    }
    assert(words@.subrange(0, words.len() as int) =~= words@);
    out
}

/// Lower-cases `text`, collapses each run of whitespace to one space and
/// trims the ends.
pub fn normalize_text_for_hash(text: &str) -> (r: String)
    ensures
        r@ == normalized(text@),
{
    let lowered = lowercase(text);
    let words = split_words(lowered.as_str());
    let collapsed = join_words(&words);
    trim(collapsed.as_str())
}

/// Content identity of `text`: hex SHA-256 of its canonical form.
pub fn compute_text_hash(text: &str) -> (r: String)
    ensures
        r@ == text_hash(text@),
        r@.len() == 64,
{
    let normalized = normalize_text_for_hash(text);
    sha256_hex_of(normalized.as_str().as_bytes())
}

} // verus!
