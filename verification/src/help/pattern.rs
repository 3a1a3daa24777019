//! Regular expressions, through the `regex` crate.
//!
//! What a pattern matches is the `regex` crate's business: the contracts here
//! give its answers a name and prove nothing of them. The patterns come from
//! the callers, as text.

use vstd::prelude::*;

verus! {

/// What `Regex::replace_all` returns for the pattern `pattern`, the haystack
/// `text` and the replacement `replacement` (in which `$1` stands for the
/// first capture group): `None` where `Regex::new` rejects the pattern.
pub uninterp spec fn replace_all_result(
    pattern: Seq<char>,
    text: Seq<char>,
    replacement: Seq<char>,
) -> Option<Seq<char>>;

/// What capture group `group` holds in the leftmost match of `pattern` in
/// `text`, as `Regex::captures` followed by `Captures::get` gives it: `None`
/// where `Regex::new` rejects the pattern, `Some(None)` where the pattern does
/// not match or the group took no part in the match.
pub uninterp spec fn capture_result(pattern: Seq<char>, text: Seq<char>, group: nat) -> Option<
    Option<Seq<char>>,
>;

/// The characters of an optional string.
pub open spec fn text_of(s: Option<String>) -> Option<Seq<char>> {
    match s {
        Some(t) => Some(t@),
        None => None,
    }
}

/// The characters of the optional string inside an `Option`.
pub open spec fn text_of_nested(s: Option<Option<String>>) -> Option<Option<Seq<char>>> {
    match s {
        Some(t) => Some(text_of(t)),
        None => None,
    }
}

/// `regex::Regex::new` on `pattern`, then `Regex::replace_all` on `text` with
/// `replacement`. Trusted: the result is the one named `replace_all_result`.
#[verifier::external_body]
pub(crate) fn replace_all(pattern: &str, text: &str, replacement: &str) -> (r: Option<String>)
    ensures
        text_of(r) == replace_all_result(pattern@, text@, replacement@),
{
    match regex::Regex::new(pattern) {
        Ok(re) => Some(re.replace_all(text, replacement).into_owned()),
        Err(_) => None,
    }
}

/// `regex::Regex::new` on `pattern`, then `Regex::captures` on `text` and
/// `Captures::get` for `group`. Trusted: the result is the one named
/// `capture_result`.
#[verifier::external_body]
pub(crate) fn capture(pattern: &str, text: &str, group: usize) -> (r: Option<Option<String>>)
    ensures
        text_of_nested(r) == capture_result(pattern@, text@, group as nat),
{
    match regex::Regex::new(pattern) {
        Ok(re) => Some(
            re.captures(text).and_then(|found| found.get(group)).map(|m| String::from(m.as_str())),
        ),
        Err(_) => None,
    }
}

} // verus!
