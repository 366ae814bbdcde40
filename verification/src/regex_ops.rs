//! The calls into the `regex` crate. What a regular expression matches is not
//! restated here: the results are named, as functions of the pattern and the
//! text alone.
use vstd::prelude::*;

use crate::text::no_comment_opening;

verus! {

/// `regex::Error`, the reason `Regex::new` refuses a pattern; carried through
/// unread.
#[verifier::external_type_specification]
#[verifier::external_body]
pub struct ExRegexError(regex::Error);

/// Whether `regex::Regex::new` compiles `pattern` (it refuses invalid syntax
/// and regexes over its default size limit).
pub uninterp spec fn regex_accepts(pattern: Seq<char>) -> bool;

/// What `Regex::replace_all` gives for the regex compiled from `pattern`, the
/// text `haystack` and the replacement `rep`.
pub uninterp spec fn regex_replace_all_result(
    pattern: Seq<char>,
    haystack: Seq<char>,
    rep: Seq<char>,
) -> Seq<char>;

/// For the regex compiled from `pattern`, the leftmost match in `haystack`
/// (`Regex::captures`): `None` without a match, otherwise the text of capture
/// group `group` (`Captures::get`), `None` where that group did not take part.
pub uninterp spec fn regex_captures_group(
    pattern: Seq<char>,
    haystack: Seq<char>,
    group: nat,
) -> Option<Option<Seq<char>>>;

/// The plain view of a capture result.
pub open spec fn capture_view(c: Option<Option<String>>) -> Option<Option<Seq<char>>> {
    match c {
        None => None,
        Some(None) => Some(None),
        Some(Some(s)) => Some(Some(s@)),
    }
}

/// Compiles `pattern` with `regex::Regex::new` and, where that succeeds,
/// replaces every match in `haystack` with `rep` through `Regex::replace_all`.
/// Claimed: the compile fails exactly where `regex_accepts` does not hold,
/// and the replaced text is `regex_replace_all_result` of the three strings.
/// Also claimed: the comment pattern `(?s)/\*.*?\*/` compiles (a flag group,
/// escaped stars and a lazy repetition, all in the crate's syntax); and on a
/// text in which no `/` is followed by `*` it matches nowhere, since each of
/// its matches begins with the literal `/*`, so that `replace_all` gives the
/// text back unchanged, as its documentation says of a search without a match.
#[verifier::external_body]
pub(crate) fn regex_replace_all(pattern: &str, haystack: &str, rep: &str) -> (r: Result<
    String,
    regex::Error,
>)
    ensures
        r is Ok <==> regex_accepts(pattern@),
        pattern@ == "(?s)/\\*.*?\\*/"@ ==> r is Ok,
        r matches Ok(s) ==> (pattern@ == "(?s)/\\*.*?\\*/"@ && no_comment_opening(haystack@) ==> s@ == haystack@),
        r matches Ok(s) ==> s@ == regex_replace_all_result(pattern@, haystack@, rep@),
{
    match regex::Regex::new(pattern) {
        Ok(re) => Ok(re.replace_all(haystack, rep).into_owned()),
        Err(e) => Err(e),
    }
}

/// Compiles `pattern` with `regex::Regex::new` and, where that succeeds,
/// searches `haystack` with `Regex::captures` and takes capture group `group`
/// with `Captures::get`. Claimed: the compile fails exactly where
/// `regex_accepts` does not hold, and the outcome is `regex_captures_group`
/// of the pattern, the text and the group. Also claimed: the body pattern
/// `(?s)<body>(.*)</body>` compiles (a flag group, literals and one capture
/// group, all in the crate's syntax).
#[verifier::external_body]
pub(crate) fn regex_capture(pattern: &str, haystack: &str, group: usize) -> (r: Result<
    Option<Option<String>>,
    regex::Error,
>)
    ensures
        r is Ok <==> regex_accepts(pattern@),
        pattern@ == "(?s)<body>(.*)</body>"@ ==> r is Ok,
        r matches Ok(c) ==> capture_view(c) == regex_captures_group(
            pattern@,
            haystack@,
            group as nat,
        ),
{
    match regex::Regex::new(pattern) {
        Ok(re) => Ok(
            match re.captures(haystack) {
                Some(caps) => Some(
                    match caps.get(group) {
                        Some(m) => Some(m.as_str().to_string()),
                        None => None,
                    },
                ),
                None => None,
            },
        ),
        Err(e) => Err(e),
    }
}

} // verus!
