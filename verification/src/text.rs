//! Text predicates and the trusted string primitives they are checked with.

use vstd::prelude::*;

verus! {

/// `q` occurs as a contiguous run of characters inside `t`.
///
/// The empty sequence is a substring of everything.
pub open spec fn is_substring(q: Seq<char>, t: Seq<char>) -> bool {
    exists|i: int| 0 <= i && i + q.len() <= t.len() && #[trigger] t.subrange(i, i + q.len()) == q
}

/// Relies on `String::push`: appends one character at the end.
#[verifier::external_body]
pub(crate) fn push_char(s: &mut String, c: char)
    ensures
        final(s)@ == old(s)@.push(c),
{
    s.push(c)
}

/// Relies on `str::contains` with a `&str` pattern: true exactly when the
/// pattern occurs as a contiguous substring of the text (for valid UTF-8
/// the byte-level match coincides with the character-level one).
#[verifier::external_body]
pub(crate) fn contains_substring(t: &str, q: &str) -> (r: bool)
    ensures
        r == is_substring(q@, t@),
{
    t.contains(q)
}

/// Whether the query occurs in the text as a whole word, that is, delimited
/// by word boundaries on both sides. The exact boundary rules belong to the
/// regex engine; the result is a function of the two strings alone.
pub uninterp spec fn word_match(q: Seq<char>, t: Seq<char>) -> bool;

/// Relies on `regex::escape` (turns the query into a literal pattern) and
/// `regex::Regex::is_match` with that literal wrapped in word-boundary
/// anchors. Compilation fails only on a pattern too large to compile, and
/// deterministically in the pattern, so counting that as no match keeps
/// the result a function of the two strings alone.
#[verifier::external_body]
pub(crate) fn word_boundary_match(q: &str, t: &str) -> (r: bool)
    ensures
        r == word_match(q@, t@),
{
    let pattern = format!(r"\b{}\b", regex::escape(q));
    regex::Regex::new(&pattern).map(|re| re.is_match(t)).unwrap_or(false)
}

} // verus!
