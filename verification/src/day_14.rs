//! Rendering user content into an HTML page, as it is and escaped.
use vstd::prelude::*;
use htmlentity::entity::ICodedDataTrait;
use crate::Status;
use crate::text::append;

verus! {

/// The page text before the content.
pub open spec fn page_head() -> Seq<char> {
    "<html>\n  <head>\n    <title>CCH23 Day 14</title>\n  </head>\n  <body>\n    "@
}

/// The page text after the content.
pub open spec fn page_tail() -> Seq<char> {
    "\n  </body>\n</html>"@
}

/// The page around the given content.
pub open spec fn page(content: Seq<char>) -> Seq<char> {
    page_head() + content + page_tail()
}

/// What one character becomes in HTML-escaped text: `<`, `>`, `&`, `"` and `'` their named
/// entities, any other character itself.
pub open spec fn escape_char(c: char) -> Seq<char> {
    if c == '<' {
        seq!['&', 'l', 't', ';']
    } else if c == '>' {
        seq!['&', 'g', 't', ';']
    } else if c == '&' {
        seq!['&', 'a', 'm', 'p', ';']
    } else if c == '"' {
        seq!['&', 'q', 'u', 'o', 't', ';']
    } else if c == '\'' {
        seq!['&', 'a', 'p', 'o', 's', ';']
    } else {
        seq![c]
    }
}

/// The text with every character escaped.
pub open spec fn escaped(s: Seq<char>) -> Seq<char>
    decreases s.len(),
{
    if s.len() == 0 {
        seq![]
    } else {
        escaped(s.drop_last()) + escape_char(s.last())
    }
}

/// Escaped text holds no character that starts or ends markup or a quoted attribute: no
/// `<`, `>`, `"` or `'`, whatever the content.
pub proof fn law_escaped_is_inert(s: Seq<char>)
    ensures
        forall|i: int|
            0 <= i < escaped(s).len() ==> #[trigger] escaped(s)[i] != '<' && escaped(s)[i] != '>'
                && escaped(s)[i] != '"' && escaped(s)[i] != '\'',
    decreases s.len(),
{
    if s.len() > 0 {
        law_escaped_is_inert(s.drop_last());
        let pre = escaped(s.drop_last());
        let e = escape_char(s.last());
        assert(escaped(s) == pre + e);
        assert forall|i: int| 0 <= i < e.len() implies #[trigger] e[i] != '<' && e[i] != '>' && e[i]
            != '"' && e[i] != '\'' by {}
        assert forall|i: int| 0 <= i < escaped(s).len() implies #[trigger] escaped(s)[i] != '<'
            && escaped(s)[i] != '>' && escaped(s)[i] != '"' && escaped(s)[i] != '\'' by {
            if i < pre.len() {
                assert(escaped(s)[i] == pre[i]);
            } else {
                assert(escaped(s)[i] == e[i - pre.len()]);
            }
        }
    }
}

/// `htmlentity::entity::encode` with named entities for the special characters
/// (`EncodeType::Named`, `CharacterSet::SpecialChars`), then its `to_string`: the escaped
/// text. The conversion back to a string reads the input's bytes between the replaced
/// characters, which are single ASCII bytes, so on the bytes of a `str` it cannot fail.
#[verifier::external_body]
fn encode_special(content: &str) -> (r: Option<String>)
    ensures
        r is Some,
        r matches Some(t) ==> t@ == escaped(content@),
{
    htmlentity::entity::encode(
        content.as_bytes(),
        &htmlentity::entity::EncodeType::Named,
        &htmlentity::entity::CharacterSet::SpecialChars,
    ).to_string().ok()
}

fn render(content: &str) -> (s: String)
    ensures
        s@ == page(content@),
{
    let mut s = String::from_str("<html>\n  <head>\n    <title>CCH23 Day 14</title>\n  </head>\n  <body>\n    ");
    append(&mut s, content);
    append(&mut s, "\n  </body>\n</html>");
    s
}

/// The page with the content put in as it is.
pub fn unsafe_html(content: &str) -> (s: String)
    ensures
        s@ == page(content@),
{
    render(content)
}

/// The page with the content HTML-escaped (the answer would be `422` if the escaped text
/// could not be had, which does not happen for text).
pub fn safe_html(content: &str) -> (r: Result<String, Status>)
    ensures
        r matches Ok(s) && s@ == page(escaped(content@)),
{
    match encode_special(content) {
        Some(t) => Ok(render(t.as_str())),
        None => Err(Status { code: 422 }),
    }
}

} // verus!
