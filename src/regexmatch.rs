//! Whole-value regular-expression matching of annotation values.

use vstd::prelude::*;
use vstd::string::*;

verus! {

/// What the regex crate answers for `pattern` on `value`: `None` when
/// `pattern` is not a valid regular expression, otherwise whether it matches
/// somewhere in `value`.
pub uninterp spec fn regex_match(pattern: Seq<char>, value: Seq<char>) -> Option<bool>;

/// `pattern` anchored at both ends, so that it must match the whole value.
pub open spec fn anchored(pattern: Seq<char>) -> Seq<char> {
    "^(?:"@ + pattern + ")$"@
}

/// The whole of `value` matches the regular expression `pattern`.
pub open spec fn full_match(pattern: Seq<char>, value: Seq<char>) -> bool {
    regex_match(anchored(pattern), value) == Some(true)
}

/// Relies on `regex::Regex::new` (which rejects an invalid pattern) and
/// `regex::Regex::is_match` (whether the pattern matches somewhere in the
/// text); the answer depends on the two strings alone.
#[verifier::external_body]
fn regex_is_match(pattern: &str, value: &str) -> (r: Option<bool>)
    ensures
        r == regex_match(pattern@, value@),
{
    match regex::Regex::new(pattern) {
        Ok(re) => Some(re.is_match(value)),
        Err(_) => None,
    }
}

/// `pattern` anchored at both ends.
pub fn anchor(pattern: &str) -> (r: String)
    ensures
        r@ == anchored(pattern@),
{
    let mut s = "^(?:".to_string();
    s.append(pattern);
    s.append(")$");
    s
}

/// Whether the whole of `value` matches the anchored pattern `anchored_pattern`.
pub fn matches_anchored(anchored_pattern: &String, value: &str) -> (r: bool)
    ensures
        r == (regex_match(anchored_pattern@, value@) == Some(true)),
{
    match regex_is_match(anchored_pattern.as_str(), value) {
        Some(b) => b,
        None => false,
    }
}

/// Whether the whole of `value` matches the regular expression `pattern`;
/// `false` for an invalid pattern.
pub fn full_match_exec(pattern: &str, value: &str) -> (r: bool)
    ensures
        r == full_match(pattern@, value@),
{
    let a = anchor(pattern);
    matches_anchored(&a, value)
}

} // verus!
