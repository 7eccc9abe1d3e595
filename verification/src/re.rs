//! Trusted boundary to the regex crate. The compiler's pattern matching is
//! regex's work: each result is named as a function of pattern and haystack
//! alone, and the verified compiler is proved against those names.

use vstd::prelude::*;

verus! {

/// Whether the regex crate compiles `p` as a pattern.
pub uninterp spec fn regex_valid(p: Seq<char>) -> bool;

/// What replacing every non-overlapping match of `p` in `text` with `rep`
/// leaves: a function of pattern, haystack and replacement alone.
pub uninterp spec fn replace_all_of(p: Seq<char>, text: Seq<u8>, rep: Seq<u8>) -> Seq<u8>;

/// The capture rows of the successive non-overlapping matches of `p` in
/// `text`: one row per match, holding for each group of the pattern the
/// matched bytes, or nothing where the group did not participate.
pub uninterp spec fn captures_of(p: Seq<char>, text: Seq<u8>) -> Seq<Seq<Option<Seq<u8>>>>;

/// Relies on regex::bytes::Regex::new: whether a pattern compiles depends
/// on the pattern alone.
#[verifier::external_body]
pub fn regex_is_valid(p: &str) -> (r: bool)
    ensures
        r == regex_valid(p@),
{
    regex::bytes::Regex::new(p).is_ok()
}

/// Relies on regex::bytes::Regex::new and regex::bytes::Regex::replace_all:
/// compilation succeeds by the pattern alone, and the replacement of every
/// non-overlapping match is a function of pattern, haystack and
/// replacement.
#[verifier::external_body]
pub fn regex_replace_all(p: &str, text: &[u8], rep: &[u8]) -> (r: Option<Vec<u8>>)
    ensures
        r is Some <==> regex_valid(p@),
        r matches Some(v) ==> v@ == replace_all_of(p@, text@, rep@),
{
    match regex::bytes::Regex::new(p) {
        Ok(re) => Some(re.replace_all(text, rep).into_owned()),
        Err(_) => None,
    }
}

/// Relies on regex::bytes::Regex::new and
/// regex::bytes::Regex::captures_iter: compilation succeeds by the pattern
/// alone, and the capture rows of the successive non-overlapping matches
/// are a function of pattern and haystack.
#[verifier::external_body]
pub fn regex_captures(p: &str, text: &[u8]) -> (r: Option<Vec<Vec<Option<Vec<u8>>>>>)
    ensures
        r is Some <==> regex_valid(p@),
        r matches Some(v) ==> v.deep_view() == captures_of(p@, text@),
{
    match regex::bytes::Regex::new(p) {
        Ok(re) => Some(
            re.captures_iter(text).map(
                |c| c.iter().map(|m| m.map(|g| g.as_bytes().to_vec())).collect(),
            ).collect(),
        ),
        Err(_) => None,
    }
}

} // verus!
