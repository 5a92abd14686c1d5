//! HTTP responses: how they are built and how their head is written.
use vstd::prelude::*;
use crate::config::Config;
use crate::http::request::{header_texts, HeaderList};
use crate::utils::templates::{error_page, render_error};
use crate::utils::text::{decimal, digit_char, eq_ignore_ascii_case, str_eq_ignore_ascii_case, u64_to_decimal};

verus! {

/// Where the body of a response comes from.
pub enum Body {
    /// Bytes held in memory.
    Bytes(Vec<u8>),
    /// The file opened at this path, streamed by the connection handler.
    File(String),
}

/// The status line, headers, content metadata and body of an HTTP response.
pub struct Response {
    /// Status code and reason, such as `200 OK`.
    pub status: String,
    /// The MIME type sent as `Content-Type`.
    pub content_type: String,
    pub content_length: u64,
    /// Headers specific to this response, written after the configured ones.
    pub headers: Vec<(String, String)>,
    pub body: Body,
}

/// The MIME type that `mime_guess` gives for a path (by its extension), or
/// `application/octet-stream` when it knows none.
pub uninterp spec fn guessed_mime(path: Seq<char>) -> Seq<char>;

/// The MIME type of a path through `mime_guess::from_path(..).first_or_octet_stream()`.
/// The contract only names the result: a function of the path alone (a table lookup by
/// extension), written as the `Mime`'s text.
#[verifier::external_body]
fn mime_for_path(path: &str) -> (r: String)
    ensures
        r@ == guessed_mime(path@),
{
    mime_guess::from_path(path).first_or_octet_stream().to_string()
}

/// The header lines `name: value\r\n` of a list of fields, in order.
pub open spec fn header_lines(hs: HeaderList) -> Seq<char>
    decreases hs.len(),
{
    if hs.len() == 0 {
        Seq::empty()
    } else {
        header_lines(hs.drop_last()) + hs.last().0 + ": "@ + hs.last().1 + "\r\n"@
    }
}

/// The text of a response head: status line, fixed headers, the configured headers,
/// the response's own headers and the blank line that ends the head.
pub open spec fn response_head(
    status: Seq<char>,
    content_type: Seq<char>,
    content_length: nat,
    connection: Seq<char>,
    configured: HeaderList,
    own: HeaderList,
) -> Seq<char> {
    "HTTP/1.1 "@ + status + "\r\nContent-Type: "@ + content_type + "\r\nContent-Length: "@ + decimal(
        content_length,
    ) + "\r\nConnection: "@ + connection + "\r\nServer: Ferrox\r\n"@ + (if eq_ignore_ascii_case(
        connection,
        "keep-alive"@,
    ) {
        "Keep-Alive: timeout=10\r\n"@
    } else {
        Seq::empty()
    }) + header_lines(configured) + header_lines(own) + "\r\n"@
}

/// A text holds no carriage return and no line feed.
pub open spec fn single_line(s: Seq<char>) -> bool {
    forall|i: int| 0 <= i < s.len() ==> s[i] != '\r' && s[i] != '\n'
}

/// Every name and value of a header list is a single line.
pub open spec fn fields_single_line(hs: HeaderList) -> bool {
    forall|i: int| 0 <= i < hs.len() ==> single_line(#[trigger] hs[i].0) && single_line(hs[i].1)
}

/// A line feed at `i` is followed by a carriage return.
pub open spec fn lf_cr_at(s: Seq<char>, i: int) -> bool {
    s[i] == '\n' && s[i + 1] == '\r'
}

/// No line feed of the text is followed by a carriage return.
pub open spec fn no_lf_cr(s: Seq<char>) -> bool {
    forall|i: int| 0 <= i && i + 1 < s.len() ==> !#[trigger] lf_cr_at(s, i)
}

/// A blank line `\r\n\r\n` starts at position `i` of the text.
pub open spec fn blank_line_at(s: Seq<char>, i: int) -> bool {
    &&& 0 <= i && i + 4 <= s.len()
    &&& s[i] == '\r'
    &&& s[i + 1] == '\n'
    &&& s[i + 2] == '\r'
    &&& s[i + 3] == '\n'
}

spec fn ends_lf(s: Seq<char>) -> bool {
    s.len() > 0 && s.last() == '\n'
}

spec fn starts_cr(s: Seq<char>) -> bool {
    s.len() > 0 && s[0] == '\r'
}

spec fn ends_crlf(s: Seq<char>) -> bool {
    s.len() >= 2 && s[s.len() - 2] == '\r' && s.last() == '\n'
}

proof fn lemma_concat_no_lf_cr(a: Seq<char>, b: Seq<char>)
    requires
        no_lf_cr(a),
        no_lf_cr(b),
        !(ends_lf(a) && starts_cr(b)),
    ensures
        no_lf_cr(a + b),
        ends_lf(a + b) == if b.len() > 0 { ends_lf(b) } else { ends_lf(a) },
        starts_cr(a + b) == if a.len() > 0 { starts_cr(a) } else { starts_cr(b) },
        b.len() >= 2 ==> ends_crlf(a + b) == ends_crlf(b),
        b.len() == 0 ==> a + b == a,
{
    let c = a + b;
    if b.len() >= 2 {
        assert(c[c.len() - 2] == b[b.len() - 2]);
    }
    if b.len() == 0 {
        assert(c =~= a);
    }
    assert forall|i: int| 0 <= i && i + 1 < c.len() implies !#[trigger] lf_cr_at(c, i) by {
        if i + 1 < a.len() {
            assert(c[i] == a[i] && c[i + 1] == a[i + 1]);
            assert(!lf_cr_at(a, i));
        } else if i >= a.len() {
            assert(c[i] == b[i - a.len()] && c[i + 1] == b[i + 1 - a.len()]);
            assert(!lf_cr_at(b, i - a.len()));
        } else {
            assert(c[i] == a.last() && c[i + 1] == b[0]);
        }
    }
    if b.len() > 0 {
        assert(c.last() == b.last());
    }
    if a.len() > 0 {
        assert(c[0] == a[0]);
    } else {
        assert(c =~= b);
    }
}

proof fn lemma_single_line(s: Seq<char>)
    requires
        single_line(s),
    ensures
        no_lf_cr(s),
        !ends_lf(s),
        !starts_cr(s),
{
    assert forall|i: int| 0 <= i && i + 1 < s.len() implies !#[trigger] lf_cr_at(s, i) by {
        assert(s[i] != '\n');
    }
    if s.len() > 0 {
        assert(s[s.len() - 1] != '\n');
        assert(s[0] != '\r');
    }
}

proof fn lemma_decimal_single_line(n: nat)
    ensures
        single_line(decimal(n)),
    decreases n,
{
    let d = decimal(n);
    if n < 10 {
        assert(d[0] == digit_char(n));
    } else {
        lemma_decimal_single_line(n / 10);
        let d0 = decimal(n / 10);
        assert forall|i: int| 0 <= i < d.len() implies d[i] != '\r' && d[i] != '\n' by {
            if i < d0.len() {
                assert(d[i] == d0[i]);
            } else {
                assert(d[i] == digit_char(n % 10));
            }
        }
    }
}

proof fn lemma_header_lines(hs: HeaderList)
    requires
        fields_single_line(hs),
    ensures
        no_lf_cr(header_lines(hs)),
        !starts_cr(header_lines(hs)),
        header_lines(hs).len() > 0 ==> ends_crlf(header_lines(hs)),
    decreases hs.len(),
{
    if hs.len() > 0 {
        let init = hs.drop_last();
        assert forall|i: int| 0 <= i < init.len() implies single_line(#[trigger] init[i].0) && single_line(init[i].1) by {
            assert(init[i] == hs[i]);
        }
        lemma_header_lines(init);
        let (name, value) = hs.last();
        assert(single_line(hs[hs.len() - 1].0) && single_line(hs[hs.len() - 1].1));
        lemma_single_line(name);
        lemma_single_line(value);
        let sep = ": "@;
        let end = "\r\n"@;
        reveal_strlit(": ");
        reveal_strlit("\r\n");
        lemma_single_line(sep);
        assert(no_lf_cr(end)) by {
            assert forall|i: int| 0 <= i && i + 1 < end.len() implies !#[trigger] lf_cr_at(end, i) by {}
        }
        let h0 = header_lines(init);
        lemma_concat_no_lf_cr(h0, name);
        lemma_concat_no_lf_cr(h0 + name, sep);
        lemma_concat_no_lf_cr(h0 + name + sep, value);
        lemma_concat_no_lf_cr(h0 + name + sep + value, end);
    }
}

/// Law: a response head whose status, content type, connection value and header names
/// and values hold no CR or LF is a single header block: it ends with the blank line
/// `\r\n\r\n`, and no blank line starts anywhere before it.
pub proof fn response_head_is_one_block(
    status: Seq<char>,
    content_type: Seq<char>,
    content_length: nat,
    connection: Seq<char>,
    configured: HeaderList,
    own: HeaderList,
)
    requires
        single_line(status),
        single_line(content_type),
        single_line(connection),
        fields_single_line(configured),
        fields_single_line(own),
    ensures
        ({
            let h = response_head(status, content_type, content_length, connection, configured, own);
            &&& blank_line_at(h, h.len() - 4)
            &&& forall|i: int| blank_line_at(h, i) ==> i == h.len() - 4
        }),
{
    let l1 = "HTTP/1.1 "@;
    let l2 = "\r\nContent-Type: "@;
    let l3 = "\r\nContent-Length: "@;
    let l4 = "\r\nConnection: "@;
    let l5 = "\r\nServer: Ferrox\r\n"@;
    let ka = if eq_ignore_ascii_case(connection, "keep-alive"@) {
        "Keep-Alive: timeout=10\r\n"@
    } else {
        Seq::<char>::empty()
    };
    let end = "\r\n"@;
    reveal_strlit("HTTP/1.1 ");
    reveal_strlit("\r\nContent-Type: ");
    reveal_strlit("\r\nContent-Length: ");
    reveal_strlit("\r\nConnection: ");
    reveal_strlit("\r\nServer: Ferrox\r\n");
    reveal_strlit("Keep-Alive: timeout=10\r\n");
    reveal_strlit("\r\n");
    lemma_single_line(l1);
    lemma_single_line(status);
    lemma_single_line(content_type);
    lemma_single_line(connection);
    lemma_decimal_single_line(content_length);
    lemma_single_line(decimal(content_length));
    lemma_header_lines(configured);
    lemma_header_lines(own);
    assert(no_lf_cr(l2)) by {
        assert forall|i: int| 0 <= i && i + 1 < l2.len() implies !#[trigger] lf_cr_at(l2, i) by {}
    }
    assert(no_lf_cr(l3)) by {
        assert forall|i: int| 0 <= i && i + 1 < l3.len() implies !#[trigger] lf_cr_at(l3, i) by {}
    }
    assert(no_lf_cr(l4)) by {
        assert forall|i: int| 0 <= i && i + 1 < l4.len() implies !#[trigger] lf_cr_at(l4, i) by {}
    }
    assert(no_lf_cr(l5)) by {
        assert forall|i: int| 0 <= i && i + 1 < l5.len() implies !#[trigger] lf_cr_at(l5, i) by {}
    }
    assert(no_lf_cr(ka) && !starts_cr(ka) && (ka.len() > 0 ==> ka.len() >= 2 && ends_crlf(ka))) by {
        assert forall|i: int| 0 <= i && i + 1 < ka.len() implies !#[trigger] lf_cr_at(ka, i) by {}
    }
    let dec = decimal(content_length);
    let mut b = l1;
    lemma_concat_no_lf_cr(b, status);
    b = b + status;
    lemma_concat_no_lf_cr(b, l2);
    b = b + l2;
    lemma_concat_no_lf_cr(b, content_type);
    b = b + content_type;
    lemma_concat_no_lf_cr(b, l3);
    b = b + l3;
    lemma_concat_no_lf_cr(b, dec);
    b = b + dec;
    lemma_concat_no_lf_cr(b, l4);
    b = b + l4;
    lemma_concat_no_lf_cr(b, connection);
    b = b + connection;
    lemma_concat_no_lf_cr(b, l5);
    b = b + l5;
    assert(ends_crlf(b));
    lemma_concat_no_lf_cr(b, ka);
    b = b + ka;
    assert(ends_crlf(b));
    lemma_concat_no_lf_cr(b, header_lines(configured));
    b = b + header_lines(configured);
    assert(ends_crlf(b));
    lemma_concat_no_lf_cr(b, header_lines(own));
    b = b + header_lines(own);
    assert(ends_crlf(b));
    let h = b + end;
    assert(h == response_head(status, content_type, content_length, connection, configured, own));
    assert forall|i: int| blank_line_at(h, i) implies i == h.len() - 4 by {
        if i + 2 < b.len() {
            assert(h[i + 1] == b[i + 1] && h[i + 2] == b[i + 2]);
            assert(!lf_cr_at(b, i + 1));
        } else if i + 2 == b.len() + 1 {
            assert(h[i + 2] == end[1]);
        }
    }
}

/// The line `name: value\r\n` of a header field.
pub open spec fn field_line(f: (Seq<char>, Seq<char>)) -> Seq<char> {
    f.0 + ": "@ + f.1 + "\r\n"@
}

/// `t` occurs in `s` starting at `off`.
pub open spec fn occurs_at(s: Seq<char>, t: Seq<char>, off: int) -> bool {
    0 <= off && off + t.len() <= s.len() && s.subrange(off, off + t.len()) == t
}

proof fn lemma_occurs_in_concat(a: Seq<char>, b: Seq<char>, t: Seq<char>, off: int)
    ensures
        occurs_at(a, t, off) ==> occurs_at(a + b, t, off),
        occurs_at(b, t, off) ==> occurs_at(a + b, t, a.len() + off),
{
    if occurs_at(a, t, off) {
        assert((a + b).subrange(off, off + t.len()) =~= a.subrange(off, off + t.len()));
    }
    if occurs_at(b, t, off) {
        assert((a + b).subrange(a.len() + off, a.len() + off + t.len()) =~= b.subrange(off, off + t.len()));
    }
}

/// The text holds the line of field `f` somewhere.
pub open spec fn has_line(s: Seq<char>, f: (Seq<char>, Seq<char>)) -> bool {
    exists|off: int| occurs_at(s, field_line(f), off)
}

/// Where the line of field `i` stands in the header lines of `hs`.
proof fn header_line_offset(hs: HeaderList, i: int) -> (off: int)
    requires
        0 <= i < hs.len(),
    ensures
        occurs_at(header_lines(hs), field_line(hs[i]), off),
    decreases hs.len(),
{
    let init = hs.drop_last();
    let last = init.len() as int;
    let line = field_line(hs.last());
    let h0 = header_lines(init);
    assert(header_lines(hs) =~= h0 + line);
    if i == last {
        lemma_occurs_in_concat(h0, line, line, 0);
        assert(occurs_at(line, line, 0)) by {
            assert(line.subrange(0, line.len() as int) =~= line);
        }
        h0.len() as int
    } else {
        let off = header_line_offset(init, i);
        assert(init[i] == hs[i]);
        lemma_occurs_in_concat(h0, line, field_line(hs[i]), off);
        off
    }
}

/// Law: whatever the connection value, a response head ends with the configured header
/// lines, then the response's own lines, then the blank line; before them stands the
/// `Server` line, or the `Keep-Alive` line on a keep-alive connection. Every configured
/// field appears in the head as its own line `name: value\r\n`.
pub proof fn response_head_keeps_configured_headers(
    status: Seq<char>,
    content_type: Seq<char>,
    content_length: nat,
    connection: Seq<char>,
    configured: HeaderList,
    own: HeaderList,
)
    ensures
        ({
            let h = response_head(status, content_type, content_length, connection, configured, own);
            let tail = header_lines(configured) + header_lines(own) + "\r\n"@;
            let before = if eq_ignore_ascii_case(connection, "keep-alive"@) {
                "Keep-Alive: timeout=10\r\n"@
            } else {
                "Server: Ferrox\r\n"@
            };
            &&& occurs_at(h, before + tail, h.len() - (before + tail).len())
            &&& forall|i: int| 0 <= i < configured.len() ==> has_line(h, #[trigger] configured[i])
        }),
{
    let h = response_head(status, content_type, content_length, connection, configured, own);
    let hc = header_lines(configured);
    let tail = hc + header_lines(own) + "\r\n"@;
    let ka = eq_ignore_ascii_case(connection, "keep-alive"@);
    let before = if ka { "Keep-Alive: timeout=10\r\n"@ } else { "Server: Ferrox\r\n"@ };
    let pre = "HTTP/1.1 "@ + status + "\r\nContent-Type: "@ + content_type + "\r\nContent-Length: "@
        + decimal(content_length) + "\r\nConnection: "@ + connection;
    reveal_strlit("\r\nServer: Ferrox\r\n");
    reveal_strlit("Server: Ferrox\r\n");
    let srv = "\r\nServer: Ferrox\r\n"@;
    let x = if ka { pre + srv } else { pre + seq!['\r', '\n'] };
    assert(srv =~= seq!['\r', '\n'] + "Server: Ferrox\r\n"@);
    if ka {
        assert(h =~= x + (before + tail));
    } else {
        assert(h =~= x + (before + tail));
    }
    assert(h.subrange(x.len() as int, h.len() as int) =~= before + tail);
    assert(h.len() == x.len() + (before + tail).len());
    assert(occurs_at(h, before + tail, h.len() - (before + tail).len()));
    assert forall|i: int| 0 <= i < configured.len() implies has_line(h, #[trigger] configured[i]) by {
        let o = header_line_offset(configured, i);
        let t = field_line(configured[i]);
        let y = x + before;
        assert(h =~= y + (hc + (header_lines(own) + "\r\n"@)));
        lemma_occurs_in_concat(hc, header_lines(own) + "\r\n"@, t, o);
        lemma_occurs_in_concat(y, hc + (header_lines(own) + "\r\n"@), t, o);
        assert(occurs_at(h, t, y.len() + o));
    }
}

/// Law: a response head starts with the status line `HTTP/1.1 status\r\n`, and holds the
/// lines `Content-Type: …`, `Content-Length: …` (the length in decimal) and
/// `Connection: …`.
pub proof fn response_head_starts_with_status_line(
    status: Seq<char>,
    content_type: Seq<char>,
    content_length: nat,
    connection: Seq<char>,
    configured: HeaderList,
    own: HeaderList,
)
    ensures
        ({
            let h = response_head(status, content_type, content_length, connection, configured, own);
            &&& occurs_at(h, "HTTP/1.1 "@ + status + "\r\n"@, 0)
            &&& has_line(h, ("Content-Type"@, content_type))
            &&& has_line(h, ("Content-Length"@, decimal(content_length)))
            &&& has_line(h, ("Connection"@, connection))
        }),
{
    let h = response_head(status, content_type, content_length, connection, configured, own);
    reveal_strlit("HTTP/1.1 ");
    reveal_strlit("\r\n");
    reveal_strlit(": ");
    reveal_strlit("\r\nContent-Type: ");
    reveal_strlit("\r\nContent-Length: ");
    reveal_strlit("\r\nConnection: ");
    reveal_strlit("\r\nServer: Ferrox\r\n");
    reveal_strlit("Content-Type");
    reveal_strlit("Content-Length");
    reveal_strlit("Connection");
    let a = "HTTP/1.1 "@ + status;
    let ct = field_line(("Content-Type"@, content_type));
    let cl = field_line(("Content-Length"@, decimal(content_length)));
    let cn = field_line(("Connection"@, connection));
    let o1: int = a.len() + 2int;
    let o2: int = o1 + ct.len();
    let o3: int = o2 + cl.len();
    assert(h.subrange(0, o1) =~= "HTTP/1.1 "@ + status + "\r\n"@);
    assert(h.subrange(o1, o1 + ct.len()) =~= ct);
    assert(h.subrange(o2, o2 + cl.len()) =~= cl);
    assert(h.subrange(o3, o3 + cn.len()) =~= cn);
    assert(occurs_at(h, ct, o1));
    assert(occurs_at(h, cl, o2));
    assert(occurs_at(h, cn, o3));
}

/// Appends the header lines of `hs` to `out`.
fn append_header_lines(out: &mut String, hs: &Vec<(String, String)>)
    ensures
        final(out)@ == old(out)@ + header_lines(header_texts(hs@)),
{
    let ghost texts = header_texts(hs@);
    let n = hs.len();
    let mut i: usize = 0;
    assert(texts.take(0) =~= Seq::<(Seq<char>, Seq<char>)>::empty());
    while i < n
        invariant
            n == hs@.len(),
            texts == header_texts(hs@),
            i <= n,
            out@ == old(out)@ + header_lines(texts.take(i as int)),
        decreases n - i,
    {
        out.append(hs[i].0.as_str());
        out.append(": ");
        out.append(hs[i].1.as_str());
        out.append("\r\n");
        assert(texts.take(i + 1).drop_last() =~= texts.take(i as int));
        i = i + 1;
    }
    assert(texts.take(n as int) =~= texts);
}

impl Response {
    /// The serialized head of this response, ready to be written to the client.
    pub fn head(&self, config: &Config, connection: &str) -> (r: String)
        ensures
            r@ == response_head(
                self.status@,
                self.content_type@,
                self.content_length as nat,
                connection@,
                header_texts(config.headers@),
                header_texts(self.headers@),
            ),
    {
        let mut out = "HTTP/1.1 ".to_owned();
        out.append(self.status.as_str());
        out.append("\r\nContent-Type: ");
        out.append(self.content_type.as_str());
        out.append("\r\nContent-Length: ");
        let len = u64_to_decimal(self.content_length);
        out.append(len.as_str());
        out.append("\r\nConnection: ");
        out.append(connection);
        out.append("\r\nServer: Ferrox\r\n");
        if str_eq_ignore_ascii_case(connection, "keep-alive") {
            out.append("Keep-Alive: timeout=10\r\n");
        }
        append_header_lines(&mut out, &config.headers);
        append_header_lines(&mut out, &self.headers);
        out.append("\r\n");
        out
    }

    /// An HTML response whose body is held in memory.
    pub fn new_html(code: &str, body: Vec<u8>) -> (r: Response)
        ensures
            r.status@ == code@,
            r.content_type@ == "text/html"@,
            r.content_length == body@.len(),
            r.headers@.len() == 0,
            r.body matches Body::Bytes(b) && b@ == body@,
    {
        let len = body.len() as u64;
        Response {
            status: code.to_owned(),
            content_type: "text/html".to_owned(),
            content_length: len,
            headers: Vec::new(),
            body: Body::Bytes(body),
        }
    }

    /// A redirect response with a `Location` header and an empty body.
    pub fn redirect(code: &str, to: &str) -> (r: Response)
        ensures
            r.status@ == code@,
            r.content_type@ == "text/html"@,
            r.content_length == 0,
            header_texts(r.headers@) == seq![("Location"@, to@)],
            r.body matches Body::Bytes(b) && b@.len() == 0,
    {
        let mut headers: Vec<(String, String)> = Vec::new();
        headers.push(("Location".to_owned(), to.to_owned()));
        assert(header_texts(headers@) =~= seq![("Location"@, to@)]);
        Response {
            status: code.to_owned(),
            content_type: "text/html".to_owned(),
            content_length: 0,
            headers,
            body: Body::Bytes(Vec::new()),
        }
    }

    /// The standard HTML error response for a status code and its message.
    pub fn error(code: &str, message: &str) -> (r: Response)
        ensures
            r.status@ == code@ + " "@ + message@,
            r.content_type@ == "text/html"@,
            r.headers@.len() == 0,
            r.body matches Body::Bytes(b) && b@ == error_page(code@, message@)
                && r.content_length == b@.len(),
    {
        let body = render_error(code, message);
        let mut status = code.to_owned();
        status.append(" ");
        status.append(message);
        let len = body.len() as u64;
        Response {
            status,
            content_type: "text/html".to_owned(),
            content_length: len,
            headers: Vec::new(),
            body: Body::Bytes(body),
        }
    }

    /// A `200 OK` response streaming the file opened at `path`, which holds `len` bytes;
    /// its type is guessed from the path.
    pub fn file(path: &str, len: u64) -> (r: Response)
        ensures
            r.status@ == "200 OK"@,
            r.content_type@ == guessed_mime(path@),
            r.content_length == len,
            r.headers@.len() == 0,
            r.body matches Body::File(p) && p@ == path@,
    {
        Response {
            status: "200 OK".to_owned(),
            content_type: mime_for_path(path),
            content_length: len,
            headers: Vec::new(),
            body: Body::File(path.to_owned()),
        }
    }
}

} // verus!
