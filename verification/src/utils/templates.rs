//! HTML pages rendered from templates with `{{NAME}}` placeholders.
use vstd::prelude::*;
use vstd::utf8::encode_utf8;
use crate::utils::text::{replace_all, replace_bytes};

verus! {

/// The error page; `{{CODE}}` and `{{MESSAGE}}` are filled in.
pub const ERROR_TEMPLATE: &'static str = "<!DOCTYPE html>\n<html lang=\"en\">\n<head>\n<meta charset=\"utf-8\">\n<title>Ferrox</title>\n</head>\n<body>\n<h1>{{CODE}}</h1>\n<p>{{MESSAGE}}</p>\n<hr>\n<small>Ferrox</small>\n</body>\n</html>\n";

/// The directory listing page; `{{TITLE}}` and `{{LISTING}}` are filled in.
pub const INDEXING_TEMPLATE: &'static str = "<!DOCTYPE html>\n<html lang=\"en\">\n<head>\n<meta charset=\"utf-8\">\n<title>Index of {{TITLE}}</title>\n</head>\n<body>\n<h1>Index of {{TITLE}}</h1>\n<ul>\n{{LISTING}}\n</ul>\n</body>\n</html>\n";

/// The bytes of `{{CODE}}`.
pub open spec fn code_mark() -> Seq<u8> {
    seq![123u8, 123u8, 67u8, 79u8, 68u8, 69u8, 125u8, 125u8]
}

/// The bytes of `{{MESSAGE}}`.
pub open spec fn message_mark() -> Seq<u8> {
    seq![123u8, 123u8, 77u8, 69u8, 83u8, 83u8, 65u8, 71u8, 69u8, 125u8, 125u8]
}

/// The bytes of `{{TITLE}}`.
pub open spec fn title_mark() -> Seq<u8> {
    seq![123u8, 123u8, 84u8, 73u8, 84u8, 76u8, 69u8, 125u8, 125u8]
}

/// The bytes of `{{LISTING}}`.
pub open spec fn listing_mark() -> Seq<u8> {
    seq![123u8, 123u8, 76u8, 73u8, 83u8, 84u8, 73u8, 78u8, 71u8, 125u8, 125u8]
}

/// The error page for a status code and a message, as UTF-8 bytes.
pub open spec fn error_page(code: Seq<char>, message: Seq<char>) -> Seq<u8> {
    replace_all(
        replace_all(encode_utf8(ERROR_TEMPLATE@), code_mark(), encode_utf8(code)),
        message_mark(),
        encode_utf8(message),
    )
}

/// The HTML entity text of one character as `html_escape::encode_safe` writes it.
pub open spec fn escape_safe_char(c: char) -> Seq<char> {
    if c == '&' {
        seq!['&', 'a', 'm', 'p', ';']
    } else if c == '<' {
        seq!['&', 'l', 't', ';']
    } else if c == '>' {
        seq!['&', 'g', 't', ';']
    } else if c == '"' {
        seq!['&', 'q', 'u', 'o', 't', ';']
    } else if c == '\'' {
        seq!['&', '#', 'x', '2', '7', ';']
    } else if c == '/' {
        seq!['&', '#', 'x', '2', 'F', ';']
    } else {
        seq![c]
    }
}

/// A text with `&`, `<`, `>`, `"`, `'` and `/` replaced by their HTML entities.
pub open spec fn escape_safe(s: Seq<char>) -> Seq<char>
    decreases s.len(),
{
    if s.len() == 0 {
        Seq::empty()
    } else {
        escape_safe_char(s[0]) + escape_safe(s.drop_first())
    }
}

/// The directory listing page for a title and the listing markup, as UTF-8 bytes.
pub open spec fn indexing_page(title: Seq<char>, listing: Seq<char>) -> Seq<u8> {
    replace_all(
        replace_all(encode_utf8(INDEXING_TEMPLATE@), title_mark(), encode_utf8(escape_safe(title))),
        listing_mark(),
        encode_utf8(listing),
    )
}


/// A character that `escape_safe` never lets through.
pub open spec fn is_markup_char(c: char) -> bool {
    c == '<' || c == '>' || c == '"' || c == '\'' || c == '/'
}

/// Law: an escaped text holds none of `<`, `>`, `"`, `'` and `/`, so a title inserted
/// into the listing page cannot open or close markup.
pub proof fn escaped_text_has_no_markup(s: Seq<char>)
    ensures
        forall|i: int| 0 <= i < escape_safe(s).len() ==> !is_markup_char(#[trigger] escape_safe(s)[i]),
    decreases s.len(),
{
    if s.len() > 0 {
        escaped_text_has_no_markup(s.drop_first());
        let head = escape_safe_char(s[0]);
        let tail = escape_safe(s.drop_first());
        assert(escape_safe(s) == head + tail);
        assert forall|i: int| 0 <= i < escape_safe(s).len() implies !is_markup_char(#[trigger] escape_safe(s)[i]) by {
            if i >= head.len() {
                assert(escape_safe(s)[i] == tail[i - head.len()]);
            }
        }
    }
}

/// HTML-escapes a text through `html_escape::encode_safe`.
/// The contract claims what the crate documents and implements: each of
/// `&`, `<`, `>`, `"`, `'` and `/` becomes its entity, every other character is kept.
#[verifier::external_body]
pub(crate) fn encode_safe(text: &str) -> (r: String)
    ensures
        r@ == escape_safe(text@),
{
    html_escape::encode_safe(text).into_owned()
}

/// Renders an error page by replacing the placeholders of the error template.
pub fn render_error(code: &str, message: &str) -> (r: Vec<u8>)
    ensures
        r@ == error_page(code@, message@),
{
    let code_bytes: Vec<u8> = vec![123u8, 123u8, 67u8, 79u8, 68u8, 69u8, 125u8, 125u8];
    let message_bytes: Vec<u8> = vec![123u8, 123u8, 77u8, 69u8, 83u8, 83u8, 65u8, 71u8, 69u8, 125u8, 125u8];
    assert(code_bytes@ =~= code_mark());
    assert(message_bytes@ =~= message_mark());
    let with_code = replace_bytes(ERROR_TEMPLATE.as_bytes(), code_bytes.as_slice(), code.as_bytes());
    replace_bytes(with_code.as_slice(), message_bytes.as_slice(), message.as_bytes())
}

/// Renders a directory listing page: the title is HTML-escaped, the listing markup is
/// inserted as it is.
pub fn render_indexing(title: &str, list: &str) -> (r: Vec<u8>)
    ensures
        r@ == indexing_page(title@, list@),
{
    let title_bytes: Vec<u8> = vec![123u8, 123u8, 84u8, 73u8, 84u8, 76u8, 69u8, 125u8, 125u8];
    let listing_bytes: Vec<u8> = vec![123u8, 123u8, 76u8, 73u8, 83u8, 84u8, 73u8, 78u8, 71u8, 125u8, 125u8];
    assert(title_bytes@ =~= title_mark());
    assert(listing_bytes@ =~= listing_mark());
    let safe_title = encode_safe(title);
    let with_title = replace_bytes(INDEXING_TEMPLATE.as_bytes(), title_bytes.as_slice(), safe_title.as_str().as_bytes());
    replace_bytes(with_title.as_slice(), listing_bytes.as_slice(), list.as_bytes())
}

} // verus!
