//! Takes the body of an HTML page as one line, ready to paste into AO3.
use vstd::prelude::*;

use crate::ao3_css_transform::TransformError;
use crate::regex_ops::{regex_capture, regex_captures_group};
use crate::text::{free_of, lemma_replace_char, replace, replace_str, trim, trim_str};

verus! {

/// The regex whose first group is everything between `<body>` and `</body>`.
pub const BODY_PATTERN: &'static str = "(?s)<body>(.*)</body>";

/// The body text as one line: trimmed, with every line break made a space.
pub open spec fn one_line(body: Seq<char>) -> Seq<char> {
    replace(trim(body), "\n"@, " "@)
}

/// Puts the body text `body` on one line.
pub fn one_line_body(body: &str) -> (r: String)
    ensures
        r@ == one_line(body@),
        free_of(r@, '\n'),
{
    proof {
        reveal_strlit("\n");
        lemma_one_line(body@);
    }
    let t = trim_str(body);
    replace_str(t.as_str(), "\n", " ")
}

/// The body of the page `html` on one line. The body is the first group of
/// `BODY_PATTERN`, as the regex crate finds it.
pub fn ao3_html_transform(html: &str) -> (r: Result<String, TransformError>)
    ensures
        r matches Ok(s) ==> exists|b: Seq<char>|
            regex_captures_group(BODY_PATTERN@, html@, 1) == Some(Some(b)) && s@ == one_line(b),
        r matches Ok(s) ==> free_of(s@, '\n'),
        r == Err::<String, TransformError>(TransformError::NoMatch) <==> regex_captures_group(
            BODY_PATTERN@,
            html@,
            1,
        ) is None,
        r == Err::<String, TransformError>(TransformError::NoGroup) <==> regex_captures_group(
            BODY_PATTERN@,
            html@,
            1,
        ) == Some(None::<Seq<char>>),
{
    match regex_capture(BODY_PATTERN, html, 1) {
        Ok(Some(Some(body))) => Ok(one_line_body(body.as_str())),
        Ok(Some(None)) => Err(TransformError::NoGroup),
        Ok(None) => Err(TransformError::NoMatch),
        Err(_) => unreached(),
    }
}

/// Whatever its length, a body put on one line holds no line break: it is
/// the trimmed body, character for character, with each line break made a
/// space and every other character kept.
pub proof fn lemma_one_line(body: Seq<char>)
    ensures
        free_of(one_line(body), '\n'),
        one_line(body).len() == trim(body).len(),
        forall|i: int| 0 <= i < trim(body).len() ==> #[trigger] one_line(body)[i] == if trim(body)[i] == '\n' {
            ' '
        } else {
            trim(body)[i]
        },
{
    reveal_strlit("\n");
    reveal_strlit(" ");
    assert("\n"@ =~= seq!['\n']);
    assert(" "@ =~= seq![' ']);
    lemma_replace_char(trim(body), '\n', ' ');
    let r = one_line(body);
    assert forall|i: int| 0 <= i < r.len() implies #[trigger] r[i] != '\n' by {
        assert(r[i] == replace(trim(body), seq!['\n'], seq![' '])[i]);
    }
}

} // verus!
