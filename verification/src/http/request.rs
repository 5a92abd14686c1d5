//! Parsing of an HTTP request head: the request line and the header fields.
use vstd::prelude::*;
use vstd::utf8::*;
use crate::utils::text::{ascii_lower_all, str_from_utf8, str_to_ascii_lowercase};

verus! {

/// Why a request head was refused.
#[derive(Debug, Clone, Copy, PartialEq, Eq, Structural)]
pub enum ParseError {
    /// The buffer holds no `\r\n\r\n`.
    NoHeaderTerminator,
    /// The request line has no space: only a method.
    NoPath,
    /// The request line has one space: a method and a path, no version.
    NoVersion,
    /// The request line has more than two spaces.
    TooManyParts,
    /// A header line has no `:`.
    MalformedHeader,
    /// A header name is not valid UTF-8.
    InvalidHeaderKey,
    /// A header value is not valid UTF-8.
    InvalidHeaderValue,
    /// The method, path or version is not valid UTF-8.
    InvalidUtf8,
}

impl ParseError {
    /// The human-readable description of the error.
    pub fn message(&self) -> (r: &'static str)
        ensures
            r@ == match self {
                ParseError::NoHeaderTerminator => "No header terminator."@,
                ParseError::NoPath => "No path."@,
                ParseError::NoVersion => "No version."@,
                ParseError::TooManyParts => "Too many parts in request line."@,
                ParseError::MalformedHeader => "Malformed header."@,
                ParseError::InvalidHeaderKey => "Invalid header key."@,
                ParseError::InvalidHeaderValue => "Invalid header value."@,
                ParseError::InvalidUtf8 => "Invalid UTF-8"@,
            },
    {
        match self {
            ParseError::NoHeaderTerminator => "No header terminator.",
            ParseError::NoPath => "No path.",
            ParseError::NoVersion => "No version.",
            ParseError::TooManyParts => "Too many parts in request line.",
            ParseError::MalformedHeader => "Malformed header.",
            ParseError::InvalidHeaderKey => "Invalid header key.",
            ParseError::InvalidHeaderValue => "Invalid header value.",
            ParseError::InvalidUtf8 => "Invalid UTF-8",
        }
    }
}

/// Header fields as (name, value) texts, in the order in which each name first appeared.
pub type HeaderList = Seq<(Seq<char>, Seq<char>)>;

/// The mathematical content of a parsed request.
pub struct RequestView {
    pub method: Seq<char>,
    pub path: Seq<char>,
    pub version: Seq<char>,
    pub headers: HeaderList,
}

/// A parsed request line together with its header fields.
/// Header names are stored lower-cased; a name that occurs twice keeps the later value.
pub struct Request {
    pub method: String,
    pub path: String,
    pub version: String,
    pub headers: Vec<(String, String)>,
}

/// The texts of a list of (name, value) string pairs.
pub open spec fn header_texts(hs: Seq<(String, String)>) -> HeaderList {
    hs.map_values(|p: (String, String)| (p.0@, p.1@))
}

impl View for Request {
    type V = RequestView;

    open spec fn view(&self) -> RequestView {
        RequestView {
            method: self.method@,
            path: self.path@,
            version: self.version@,
            headers: header_texts(self.headers@),
        }
    }
}

pub const CR: u8 = 13;
pub const LF: u8 = 10;
pub const SPACE: u8 = 32;
pub const COLON: u8 = 58;

/// `s` holds `\r\n\r\n` starting at `i`.
pub open spec fn is_terminator_at(s: Seq<u8>, i: int) -> bool {
    &&& 0 <= i
    &&& i + 4 <= s.len()
    &&& s[i] == CR
    &&& s[i + 1] == LF
    &&& s[i + 2] == CR
    &&& s[i + 3] == LF
}

/// The first position at or after `from` where `\r\n\r\n` begins.
pub open spec fn terminator_from(s: Seq<u8>, from: int) -> Option<int>
    decreases s.len() - from,
{
    if from < 0 || from + 4 > s.len() {
        None
    } else if is_terminator_at(s, from) {
        Some(from)
    } else {
        terminator_from(s, from + 1)
    }
}

/// Where the header block of a request buffer ends: the first `\r\n\r\n`.
pub open spec fn header_end(s: Seq<u8>) -> Option<int> {
    terminator_from(s, 0)
}

/// The first index at or after `from` that holds byte `b`, or `s.len()` when there is none.
pub open spec fn find_byte_from(s: Seq<u8>, b: u8, from: int) -> int
    decreases s.len() - from,
{
    if from < 0 || from >= s.len() {
        s.len() as int
    } else if s[from] == b {
        from
    } else {
        find_byte_from(s, b, from + 1)
    }
}

/// A line without its trailing carriage return, if it has one.
pub open spec fn strip_cr(line: Seq<u8>) -> Seq<u8> {
    if line.len() > 0 && line.last() == CR {
        line.drop_last()
    } else {
        line
    }
}

/// Leading spaces removed.
pub open spec fn trim_start(s: Seq<u8>) -> Seq<u8>
    decreases s.len(),
{
    if s.len() > 0 && s[0] == SPACE {
        trim_start(s.drop_first())
    } else {
        s
    }
}

/// Trailing spaces removed.
pub open spec fn trim_end(s: Seq<u8>) -> Seq<u8>
    decreases s.len(),
{
    if s.len() > 0 && s.last() == SPACE {
        trim_end(s.drop_last())
    } else {
        s
    }
}

/// Leading and then trailing spaces removed.
pub open spec fn trim(s: Seq<u8>) -> Seq<u8> {
    trim_end(trim_start(s))
}

/// The request line split at its spaces into method, path and version.
/// Exactly two spaces are required; empty parts are allowed.
pub open spec fn request_line_parts(line: Seq<u8>) -> Result<(Seq<u8>, Seq<u8>, Seq<u8>), ParseError> {
    let i = find_byte_from(line, SPACE, 0);
    if i >= line.len() {
        Err(ParseError::NoPath)
    } else {
        let j = find_byte_from(line, SPACE, i + 1);
        if j >= line.len() {
            Err(ParseError::NoVersion)
        } else if find_byte_from(line, SPACE, j + 1) < line.len() {
            Err(ParseError::TooManyParts)
        } else {
            Ok((line.subrange(0, i), line.subrange(i + 1, j), line.subrange(j + 1, line.len() as int)))
        }
    }
}

/// A header line split at its first colon into a trimmed name and a trimmed value.
pub open spec fn header_parts(line: Seq<u8>) -> Option<(Seq<u8>, Seq<u8>)> {
    let c = find_byte_from(line, COLON, 0);
    if c >= line.len() {
        None
    } else {
        Some((trim(line.subrange(0, c)), trim(line.subrange(c + 1, line.len() as int))))
    }
}

/// A header line read as a lower-cased name and a value.
pub open spec fn header_field(line: Seq<u8>) -> Result<(Seq<char>, Seq<char>), ParseError> {
    match header_parts(line) {
        None => Err(ParseError::MalformedHeader),
        Some((k, v)) => if !valid_utf8(k) {
            Err(ParseError::InvalidHeaderKey)
        } else if !valid_utf8(v) {
            Err(ParseError::InvalidHeaderValue)
        } else {
            Ok((ascii_lower_all(decode_utf8(k)), decode_utf8(v)))
        },
    }
}

/// The first index at or after `from` whose entry has name `k`.
pub open spec fn key_index_from(hs: HeaderList, k: Seq<char>, from: int) -> Option<int>
    decreases hs.len() - from,
{
    if from < 0 || from >= hs.len() {
        None
    } else if hs[from].0 == k {
        Some(from)
    } else {
        key_index_from(hs, k, from + 1)
    }
}

/// The index of the entry named `k`, if any.
pub open spec fn key_index(hs: HeaderList, k: Seq<char>) -> Option<int> {
    key_index_from(hs, k, 0)
}

/// Map-like insertion: an existing entry with the same name gets the new value,
/// otherwise the pair is appended.
pub open spec fn insert_header(hs: HeaderList, k: Seq<char>, v: Seq<char>) -> HeaderList {
    match key_index(hs, k) {
        Some(i) => hs.update(i, (k, v)),
        None => hs.push((k, v)),
    }
}

/// Reads the header lines of block `h` from line start `start` on, adding them to `acc`.
/// Reading stops at the first empty line or at the end of the block; a start past the
/// end of the block means that no line is left.
pub open spec fn fold_header_lines(h: Seq<u8>, start: int, acc: HeaderList) -> Result<HeaderList, ParseError>
    decreases h.len() + 1 - start,
{
    if start < 0 || start > h.len() {
        Ok(acc)
    } else {
        let e = find_byte_from(h, LF, start);
        let line = strip_cr(h.subrange(start, e));
        if line.len() == 0 {
            Ok(acc)
        } else {
            match header_field(line) {
                Err(er) => Err(er),
                Ok((k, v)) => {
                    proof {
                        lemma_find_byte_from_bounds(h, LF, start);
                    }
                    fold_header_lines(h, e + 1, insert_header(acc, k, v))
                },
            }
        }
    }
}

/// What parsing a request buffer gives.
pub open spec fn parse_request(buf: Seq<u8>) -> Result<RequestView, ParseError> {
    match header_end(buf) {
        None => Err(ParseError::NoHeaderTerminator),
        Some(end) => {
            let h = buf.subrange(0, end);
            let e0 = find_byte_from(h, LF, 0);
            match request_line_parts(strip_cr(h.subrange(0, e0))) {
                Err(er) => Err(er),
                Ok((m, p, v)) => match fold_header_lines(h, e0 + 1, Seq::empty()) {
                    Err(er) => Err(er),
                    Ok(hs) => if valid_utf8(m) && valid_utf8(p) && valid_utf8(v) {
                        Ok(RequestView {
                            method: decode_utf8(m),
                            path: decode_utf8(p),
                            version: decode_utf8(v),
                            headers: hs,
                        })
                    } else {
                        Err(ParseError::InvalidUtf8)
                    },
                },
            }
        },
    }
}


/// The value stored under name `k`, if any.
pub open spec fn lookup(hs: HeaderList, k: Seq<char>) -> Option<Seq<char>> {
    match key_index(hs, k) {
        Some(i) => Some(hs[i].1),
        None => None,
    }
}

/// No two entries share a name.
pub open spec fn distinct_names(hs: HeaderList) -> bool {
    forall|i: int, j: int| 0 <= i < j < hs.len() ==> hs[i].0 != hs[j].0
}

/// A text holds no ASCII upper-case letter.
pub open spec fn no_ascii_upper(s: Seq<char>) -> bool {
    forall|i: int| 0 <= i < s.len() ==> !('A' <= #[trigger] s[i] && s[i] <= 'Z')
}

pub proof fn lemma_key_index_from(hs: HeaderList, k: Seq<char>, from: int)
    requires
        0 <= from,
    ensures
        match key_index_from(hs, k, from) {
            Some(i) => from <= i < hs.len() && hs[i].0 == k && forall|j: int| from <= j < i ==> hs[j].0 != k,
            None => forall|j: int| from <= j < hs.len() ==> hs[j].0 != k,
        },
    decreases hs.len() - from,
{
    if from < hs.len() && hs[from].0 != k {
        lemma_key_index_from(hs, k, from + 1);
    }
}

/// Law: after storing `v` under `k`, looking up `k` gives `v` and every other name keeps
/// its value.
pub proof fn insert_then_lookup(hs: HeaderList, k: Seq<char>, v: Seq<char>, other: Seq<char>)
    requires
        distinct_names(hs),
    ensures
        lookup(insert_header(hs, k, v), k) == Some(v),
        other != k ==> lookup(insert_header(hs, k, v), other) == lookup(hs, other),
        distinct_names(insert_header(hs, k, v)),
{
    let hs2 = insert_header(hs, k, v);
    lemma_key_index_from(hs, k, 0);
    lemma_key_index_from(hs2, k, 0);
    lemma_key_index_from(hs, other, 0);
    lemma_key_index_from(hs2, other, 0);
    match key_index(hs, k) {
        Some(i) => {
            assert(hs2 == hs.update(i, (k, v)));
            assert(hs2[i].0 == k);
        },
        None => {
            assert(hs2 == hs.push((k, v)));
            assert(hs2[hs.len() as int].0 == k);
        },
    }
    if other != k {
        assert forall|j: int| 0 <= j < hs.len() implies (hs2[j].0 == other <==> hs[j].0 == other) by {
            if hs2[j] != hs[j] {
                assert(hs2[j].0 == k);
                assert(hs[j].0 == k);
            }
        }
        match key_index(hs2, other) {
            Some(j) => {
                assert(j < hs.len());
                assert(hs2[j] == hs[j]);
            },
            None => {},
        }
    }
}

/// A lower-cased text holds no ASCII upper-case letter.
pub proof fn lemma_ascii_lower_all(s: Seq<char>)
    ensures
        no_ascii_upper(ascii_lower_all(s)),
{
    assert forall|i: int| 0 <= i < ascii_lower_all(s).len() implies !('A' <= #[trigger] ascii_lower_all(s)[i]
        && ascii_lower_all(s)[i] <= 'Z') by {
        let c = s[i];
        if 'A' <= c && c <= 'Z' {
            let d = ((c as int) + 32) as char;
            assert(d as int == c as int + 32);
        }
    }
}

/// Reading header lines keeps names distinct and lower-case.
proof fn lemma_fold_names(h: Seq<u8>, start: int, acc: HeaderList)
    requires
        distinct_names(acc),
        forall|i: int| 0 <= i < acc.len() ==> no_ascii_upper(#[trigger] acc[i].0),
    ensures
        fold_header_lines(h, start, acc) matches Ok(hs) ==> distinct_names(hs) && forall|i: int|
            0 <= i < hs.len() ==> no_ascii_upper(#[trigger] hs[i].0),
    decreases h.len() + 1 - start,
{
    if !(start < 0 || start > h.len()) {
        let e = find_byte_from(h, LF, start);
        let line = strip_cr(h.subrange(start, e));
        if line.len() != 0 {
            match header_field(line) {
                Err(_) => {},
                Ok((k, v)) => {
                    lemma_find_byte_from_bounds(h, LF, start);
                    let acc2 = insert_header(acc, k, v);
                    insert_then_lookup(acc, k, v, k);
                    let (kb, vb) = header_parts(line).unwrap();
                    lemma_ascii_lower_all(decode_utf8(kb));
                    lemma_key_index_from(acc, k, 0);
                    assert forall|i: int| 0 <= i < acc2.len() implies no_ascii_upper(#[trigger] acc2[i].0) by {
                        if i < acc.len() && acc2[i] != acc[i] {
                            assert(acc2[i].0 == k);
                        }
                    }
                    lemma_fold_names(h, e + 1, acc2);
                },
            }
        }
    }
}

/// Law: the header names of a parsed request are distinct and hold no ASCII upper-case
/// letter.
pub proof fn parsed_header_names_are_distinct_and_lower_case(buf: Seq<u8>)
    ensures
        parse_request(buf) matches Ok(r) ==> distinct_names(r.headers) && forall|i: int|
            0 <= i < r.headers.len() ==> no_ascii_upper(#[trigger] r.headers[i].0),
{
    if let Some(end) = header_end(buf) {
        let h = buf.subrange(0, end);
        let e0 = find_byte_from(h, LF, 0);
        lemma_fold_names(h, e0 + 1, Seq::empty());
    }
}

/// `terminator_from` is unchanged by bytes appended after the terminator it finds.
proof fn lemma_terminator_from_extend(s: Seq<u8>, t: Seq<u8>, from: int)
    requires
        0 <= from,
        terminator_from(s, from) is Some,
    ensures
        terminator_from(s + t, from) == terminator_from(s, from),
    decreases s.len() - from,
{
    lemma_terminator_from(s, from);
    let u = s + t;
    assert(u.subrange(from, from + 4) =~= s.subrange(from, from + 4)) by {
        assert(from + 4 <= s.len());
    }
    if !is_terminator_at(s, from) {
        assert(!is_terminator_at(u, from)) by {
            if is_terminator_at(u, from) {
                assert(u[from] == s[from] && u[from + 1] == s[from + 1] && u[from + 2] == s[from + 2]
                    && u[from + 3] == s[from + 3]);
            }
        }
        lemma_terminator_from_extend(s, t, from + 1);
    } else {
        assert(u[from] == s[from] && u[from + 1] == s[from + 1] && u[from + 2] == s[from + 2]
            && u[from + 3] == s[from + 3]);
    }
}

/// Law: once a buffer holds a complete head, whatever follows it (a body, a pipelined
/// request) does not change what the parse gives.
pub proof fn parse_ignores_bytes_after_head(head: Seq<u8>, rest: Seq<u8>)
    requires
        header_end(head) is Some,
    ensures
        parse_request(head + rest) == parse_request(head),
{
    lemma_terminator_from_extend(head, rest, 0);
    lemma_terminator_from(head, 0);
    let end = header_end(head).unwrap();
    assert((head + rest).subrange(0, end) =~= head.subrange(0, end));
}

/// A part of a request line: no space, carriage return or line feed.
pub open spec fn line_token(s: Seq<u8>) -> bool {
    forall|i: int| 0 <= i < s.len() ==> s[i] != SPACE && s[i] != CR && s[i] != LF
}

/// `find_byte_from` gives `k` when `b` first occurs at `k` at or after `from` (`k` is the
/// length when it does not occur).
proof fn lemma_find_byte_is(s: Seq<u8>, b: u8, from: int, k: int)
    requires
        0 <= from <= k <= s.len(),
        forall|x: int| from <= x < k ==> s[x] != b,
        k == s.len() || s[k] == b,
    ensures
        find_byte_from(s, b, from) == k,
    decreases k - from,
{
    if from < k {
        lemma_find_byte_is(s, b, from + 1, k);
    }
}

/// A request line `m SP p SP v` splits into `m`, `p`, `v` and holds no line break.
proof fn lemma_request_line_split(m: Seq<u8>, p: Seq<u8>, v: Seq<u8>)
    requires
        line_token(m),
        line_token(p),
        line_token(v),
    ensures
        ({
            let line = m + seq![SPACE] + p + seq![SPACE] + v;
            &&& request_line_parts(line) == Ok::<(Seq<u8>, Seq<u8>, Seq<u8>), ParseError>((m, p, v))
            &&& strip_cr(line) == line
            &&& strip_cr(line.push(CR)) == line
            &&& forall|x: int| 0 <= x < line.len() ==> line[x] != CR && line[x] != LF
        }),
{
    let line = m + seq![SPACE] + p + seq![SPACE] + v;
    let n = line.len() as int;
    let i0 = m.len() as int;
    let j0 = i0 + 1 + p.len();
    assert forall|x: int| 0 <= x < n implies line[x] != CR && line[x] != LF by {
        if x < i0 {
            assert(line[x] == m[x]);
        } else if x == i0 {
        } else if x < j0 {
            assert(line[x] == p[x - i0 - 1]);
        } else if x == j0 {
        } else {
            assert(line[x] == v[x - j0 - 1]);
        }
    }
    // The request line splits at its two spaces into m, p, v.
    assert(line[i0] == SPACE && line[j0] == SPACE);
    assert forall|x: int| 0 <= x < i0 implies line[x] != SPACE by {
        assert(line[x] == m[x]);
    }
    assert forall|x: int| i0 + 1 <= x < j0 implies line[x] != SPACE by {
        assert(line[x] == p[x - i0 - 1]);
    }
    assert forall|x: int| j0 + 1 <= x < n implies line[x] != SPACE by {
        assert(line[x] == v[x - j0 - 1]);
    }
    lemma_find_byte_is(line, SPACE, 0, i0);
    lemma_find_byte_is(line, SPACE, i0 + 1, j0);
    lemma_find_byte_is(line, SPACE, j0 + 1, n);
    assert(line.subrange(0, i0) =~= m);
    assert(line.subrange(i0 + 1, j0) =~= p);
    assert(line.subrange(j0 + 1, n) =~= v);
    assert(request_line_parts(line) == Ok::<(Seq<u8>, Seq<u8>, Seq<u8>), ParseError>((m, p, v)));
    assert(line.last() == SPACE || line.last() == v.last());
    assert(strip_cr(line) == line);
    assert(strip_cr(line.push(CR)) =~= line);
}

/// Law: a request line `method SP path SP version` followed by CRLF is read exactly as
/// sent: whatever follows it, a successful parse gives the method, path and version as
/// the UTF-8 texts of those three byte runs; and when only the blank line follows and
/// the three runs are valid UTF-8, the parse succeeds, with no header fields.
#[verifier::rlimit(40)]
pub proof fn parse_reads_request_line_exactly(m: Seq<u8>, p: Seq<u8>, v: Seq<u8>, tail: Seq<u8>)
    requires
        line_token(m),
        line_token(p),
        line_token(v),
    ensures
        ({
            let buf = m + seq![SPACE] + p + seq![SPACE] + v + seq![CR, LF] + tail;
            &&& parse_request(buf) matches Ok(r) ==> r.method == decode_utf8(m) && r.path
                == decode_utf8(p) && r.version == decode_utf8(v)
            &&& (tail == seq![CR, LF] && valid_utf8(m) && valid_utf8(p) && valid_utf8(v))
                ==> parse_request(buf) == Ok::<RequestView, ParseError>(
                RequestView {
                    method: decode_utf8(m),
                    path: decode_utf8(p),
                    version: decode_utf8(v),
                    headers: Seq::empty(),
                },
            )
        }),
{
    let line = m + seq![SPACE] + p + seq![SPACE] + v;
    let buf = m + seq![SPACE] + p + seq![SPACE] + v + seq![CR, LF] + tail;
    let n = line.len() as int;
    let i0 = m.len() as int;
    let j0 = i0 + 1 + p.len();
    assert(buf == line + seq![CR, LF] + tail);
    assert forall|x: int| 0 <= x < n implies buf[x] == line[x] && line[x] != CR && line[x] != LF by {
        assert(buf[x] == line[x]);
        if x < i0 {
            assert(line[x] == m[x]);
        } else if x == i0 {
        } else if x < j0 {
            assert(line[x] == p[x - i0 - 1]);
        } else if x == j0 {
        } else {
            assert(line[x] == v[x - j0 - 1]);
        }
    }
    assert(buf[n] == CR && buf[n + 1] == LF);
    lemma_request_line_split(m, p, v);
    lemma_terminator_from(buf, 0);
    if tail == seq![CR, LF] {
        assert(buf[n + 2] == tail[0] && buf[n + 3] == tail[1]);
        assert(is_terminator_at(buf, n));
        lemma_terminator_before(buf, 0, n);
    }
    if let Some(end) = header_end(buf) {
        assert(is_terminator_at(buf, end));
        assert(end >= n);
        let h = buf.subrange(0, end);
        assert forall|x: int| 0 <= x < n implies h[x] != LF by {
            assert(h[x] == buf[x]);
        }
        if end == n {
            assert(h =~= line);
            lemma_find_byte_is(h, LF, 0, n);
            assert(h.subrange(0, n) =~= line);
        } else {
            assert(end >= n + 2);
            assert(h[n] == CR && h[n + 1] == LF);
            lemma_find_byte_is(h, LF, 0, n + 1);
            assert(h.subrange(0, n + 1) =~= line.push(CR));
            assert(strip_cr(line.push(CR)) =~= line);
        }
        let e0 = find_byte_from(h, LF, 0);
        assert(strip_cr(h.subrange(0, e0)) == line);
        if tail == seq![CR, LF] {
            assert(is_terminator_at(buf, n));
            assert(end <= n) by {
                if end > n {
                    lemma_terminator_before(buf, 0, n);
                }
            }
            assert(e0 + 1 > h.len());
        }
    }
}

/// A header name as sent: not empty, no space, colon, carriage return or line feed.
pub open spec fn name_token(s: Seq<u8>) -> bool {
    s.len() > 0 && forall|i: int| 0 <= i < s.len() ==> s[i] != SPACE && s[i] != COLON && s[i] != CR && s[i] != LF
}

/// A header value as sent: no carriage return or line feed, and no space at either end.
pub open spec fn value_token(s: Seq<u8>) -> bool {
    &&& forall|i: int| 0 <= i < s.len() ==> s[i] != CR && s[i] != LF
    &&& s.len() > 0 ==> s[0] != SPACE && s.last() != SPACE
}

proof fn lemma_trim_plain(s: Seq<u8>)
    requires
        s.len() > 0 ==> s[0] != SPACE && s.last() != SPACE,
    ensures
        trim(s) == s,
        trim(seq![SPACE] + s) == s,
{
    let t = seq![SPACE] + s;
    assert(t.drop_first() =~= s);
    assert(trim_start(t) == trim_start(s));
}

/// Law: a header field `name: value` of a request is stored under the name lower-cased
/// (ASCII) with the value as sent: parsing a request line followed by that one field
/// succeeds, with that single field.
#[verifier::rlimit(40)]
pub proof fn parse_stores_header_field(
    m: Seq<u8>,
    p: Seq<u8>,
    v: Seq<u8>,
    name: Seq<u8>,
    value: Seq<u8>,
)
    requires
        line_token(m),
        line_token(p),
        line_token(v),
        valid_utf8(m),
        valid_utf8(p),
        valid_utf8(v),
        name_token(name),
        value_token(value),
        valid_utf8(name),
        valid_utf8(value),
    ensures
        ({
            let buf = m + seq![SPACE] + p + seq![SPACE] + v + seq![CR, LF] + name + seq![COLON, SPACE]
                + value + seq![CR, LF, CR, LF];
            &&& parse_request(buf) matches Ok(r)
            &&& r.headers == seq![(ascii_lower_all(decode_utf8(name)), decode_utf8(value))]
            &&& lookup(r.headers, ascii_lower_all(decode_utf8(name))) == Some(decode_utf8(value))
        }),
{
    let line = m + seq![SPACE] + p + seq![SPACE] + v;
    let field = name + seq![COLON, SPACE] + value;
    let buf = m + seq![SPACE] + p + seq![SPACE] + v + seq![CR, LF] + name + seq![COLON, SPACE] + value
        + seq![CR, LF, CR, LF];
    let n = line.len() as int;
    let f0 = n + 2;
    let t = f0 + field.len();
    let tail = field + seq![CR, LF, CR, LF];
    assert(buf =~= line + seq![CR, LF] + tail);
    // What the request line gives, whatever follows it.
    parse_reads_request_line_exactly(m, p, v, tail);
    assert forall|x: int| 0 <= x < field.len() implies field[x] != CR && field[x] != LF by {
        if x < name.len() {
            assert(field[x] == name[x]);
        } else if x >= name.len() + 2 {
            assert(field[x] == value[x - name.len() - 2]);
        }
    }
    assert forall|x: int| 0 <= x < n implies buf[x] != CR && buf[x] != LF by {
        assert(buf[x] == line[x]);
        let i0 = m.len() as int;
        let j0 = i0 + 1 + p.len();
        if x < i0 {
            assert(line[x] == m[x]);
        } else if x == i0 {
        } else if x < j0 {
            assert(line[x] == p[x - i0 - 1]);
        } else if x == j0 {
        } else {
            assert(line[x] == v[x - j0 - 1]);
        }
    }
    assert forall|x: int| f0 <= x < t implies buf[x] == field[x - f0] by {}
    assert(buf[n] == CR && buf[n + 1] == LF && buf[f0] == name[0]);
    assert(buf[t] == CR && buf[t + 1] == LF && buf[t + 2] == CR && buf[t + 3] == LF);
    // The head ends at the blank line after the field.
    assert(is_terminator_at(buf, t));
    lemma_terminator_before(buf, 0, t);
    lemma_terminator_from(buf, 0);
    let end = header_end(buf).unwrap();
    assert(end == t) by {
        if end < t {
            assert(buf[end] == CR);
            if end < n {
            } else if end == n {
                assert(buf[end + 2] == name[0]);
            } else if end == n + 1 {
            } else {
                assert(buf[end] == field[end - f0]);
            }
        }
    }
    let h = buf.subrange(0, t);
    assert(h =~= line + seq![CR, LF] + field);
    let e0 = find_byte_from(h, LF, 0);
    assert forall|x: int| 0 <= x < n + 1 implies h[x] != LF by {}
    lemma_find_byte_is(h, LF, 0, n + 1);
    lemma_request_line_split(m, p, v);
    assert(h.subrange(0, n + 1) =~= line.push(CR));
    assert(strip_cr(h.subrange(0, e0)) == line);
    // The field line.
    assert forall|x: int| f0 <= x < t implies h[x] != LF by {
        assert(h[x] == field[x - f0]);
    }
    lemma_find_byte_is(h, LF, f0, t);
    assert(h.subrange(f0, t) =~= field);
    assert(field.len() > 0 && field.last() != CR) by {
        if value.len() > 0 {
            assert(field.last() == value.last());
        } else {
            assert(field.last() == SPACE);
        }
    }
    assert(strip_cr(field) == field);
    assert forall|x: int| 0 <= x < name.len() implies field[x] != COLON by {
        assert(field[x] == name[x]);
    }
    lemma_find_byte_is(field, COLON, 0, name.len() as int);
    assert(field.subrange(0, name.len() as int) =~= name);
    assert(field.subrange((name.len() + 1) as int, field.len() as int) =~= seq![SPACE] + value);
    lemma_trim_plain(name);
    lemma_trim_plain(value);
    assert(header_parts(field) == Some((name, value)));
    let k = ascii_lower_all(decode_utf8(name));
    let val = decode_utf8(value);
    assert(header_field(field) == Ok::<(Seq<char>, Seq<char>), ParseError>((k, val)));
    let hs = insert_header(Seq::empty(), k, val);
    assert(key_index(Seq::<(Seq<char>, Seq<char>)>::empty(), k) is None);
    assert(hs =~= seq![(k, val)]);
    assert(fold_header_lines(h, t + 1, hs) == Ok::<HeaderList, ParseError>(hs));
    assert(fold_header_lines(h, f0, Seq::empty()) == Ok::<HeaderList, ParseError>(hs));
    assert(key_index(hs, k) == Some(0int));
}

/// No terminator is found later than one that stands at `k`.
proof fn lemma_terminator_before(s: Seq<u8>, from: int, k: int)
    requires
        0 <= from <= k,
        is_terminator_at(s, k),
    ensures
        terminator_from(s, from) matches Some(i) && i <= k,
    decreases k - from,
{
    if from < k && !is_terminator_at(s, from) {
        lemma_terminator_before(s, from + 1, k);
    }
}

pub proof fn lemma_terminator_from(s: Seq<u8>, from: int)
    ensures
        terminator_from(s, from) matches Some(i) ==> from <= i && is_terminator_at(s, i),
    decreases s.len() - from,
{
    if !(from < 0 || from + 4 > s.len()) && !is_terminator_at(s, from) {
        lemma_terminator_from(s, from + 1);
    }
}

pub proof fn lemma_find_byte_from_bounds(s: Seq<u8>, b: u8, from: int)
    requires
        0 <= from <= s.len(),
    ensures
        from <= find_byte_from(s, b, from) <= s.len(),
        find_byte_from(s, b, from) < s.len() ==> s[find_byte_from(s, b, from)] == b,
        forall|k: int| from <= k < find_byte_from(s, b, from) ==> s[k] != b,
    decreases s.len() - from,
{
    if from < s.len() && s[from] != b {
        lemma_find_byte_from_bounds(s, b, from + 1);
    }
}

/// The first index at or after `from` of byte `b` in `s`, or `s.len()`.
pub fn find_byte(s: &[u8], b: u8, from: usize) -> (r: usize)
    requires
        from <= s@.len(),
    ensures
        r as int == find_byte_from(s@, b, from as int),
{
    let mut i = from;
    while i < s.len()
        invariant
            from <= i <= s@.len(),
            find_byte_from(s@, b, from as int) == find_byte_from(s@, b, i as int),
        decreases s@.len() - i,
    {
        if s[i] == b {
            return i;
        }
        i = i + 1;
    }
    i
}

impl Request {
    /// The byte offset at which the header block ends (the first `\r\n\r\n`), if any.
    pub fn find_headers_end(buf: &[u8]) -> (r: Option<usize>)
        ensures
            match r {
                Some(i) => header_end(buf@) == Some(i as int),
                None => header_end(buf@) is None,
            },
    {
        let n = buf.len();
        let mut i: usize = 0;
        while i < n && n - i >= 4
            invariant
                n == buf@.len(),
                header_end(buf@) == terminator_from(buf@, i as int),
            decreases n - i,
        {
            if buf[i] == CR && buf[i + 1] == LF && buf[i + 2] == CR && buf[i + 3] == LF {
                return Some(i);
            }
            i = i + 1;
        }
        None
    }

    /// Removes a trailing carriage return from a line when present.
    pub fn strip_cr(line: &[u8]) -> (r: &[u8])
        ensures
            r@ == strip_cr(line@),
    {
        let n = line.len();
        if n > 0 && line[n - 1] == CR {
            vstd::slice::slice_subrange(line, 0, n - 1)
        } else {
            line
        }
    }

    /// Removes leading and trailing ASCII spaces.
    pub fn trim(s: &[u8]) -> (r: &[u8])
        ensures
            r@ == trim(s@),
    {
        let n = s.len();
        let mut lo: usize = 0;
        assert(s@.subrange(0, n as int) =~= s@);
        while lo < n && s[lo] == SPACE
            invariant
                n == s@.len(),
                lo <= n,
                trim_start(s@) == trim_start(s@.subrange(lo as int, n as int)),
            decreases n - lo,
        {
            assert(s@.subrange(lo as int, n as int).drop_first() =~= s@.subrange(lo + 1, n as int));
            lo = lo + 1;
        }
        assert(trim_start(s@) == s@.subrange(lo as int, n as int));
        let mut hi: usize = n;
        while hi > lo && s[hi - 1] == SPACE
            invariant
                n == s@.len(),
                lo <= hi <= n,
                trim(s@) == trim_end(s@.subrange(lo as int, hi as int)),
            decreases hi - lo,
        {
            assert(s@.subrange(lo as int, hi as int).drop_last() =~= s@.subrange(lo as int, hi - 1));
            hi = hi - 1;
        }
        vstd::slice::slice_subrange(s, lo, hi)
    }

    /// Splits the request line into method, path and version.
    pub fn split_request_line(line: &[u8]) -> (r: Result<(&[u8], &[u8], &[u8]), ParseError>)
        ensures
            match r {
                Ok((m, p, v)) => request_line_parts(line@) == Ok::<_, ParseError>((m@, p@, v@)),
                Err(e) => request_line_parts(line@) == Err::<(Seq<u8>, Seq<u8>, Seq<u8>), _>(e),
            },
    {
        let n = line.len();
        let i = find_byte(line, SPACE, 0);
        if i >= n {
            return Err(ParseError::NoPath);
        }
        let j = find_byte(line, SPACE, i + 1);
        if j >= n {
            return Err(ParseError::NoVersion);
        }
        let k = find_byte(line, SPACE, j + 1);
        if k < n {
            return Err(ParseError::TooManyParts);
        }
        proof {
            lemma_find_byte_from_bounds(line@, SPACE, i + 1);
        }
        Ok((
            vstd::slice::slice_subrange(line, 0, i),
            vstd::slice::slice_subrange(line, i + 1, j),
            vstd::slice::slice_subrange(line, j + 1, n),
        ))
    }

    /// Splits a header line at its first colon into a trimmed name and a trimmed value.
    pub fn parse_header(line: &[u8]) -> (r: Result<(&[u8], &[u8]), ParseError>)
        ensures
            match r {
                Ok((k, v)) => header_parts(line@) == Some((k@, v@)),
                Err(e) => header_parts(line@) is None && e == ParseError::MalformedHeader,
            },
    {
        let n = line.len();
        let c = find_byte(line, COLON, 0);
        if c >= n {
            return Err(ParseError::MalformedHeader);
        }
        let key = Self::trim(vstd::slice::slice_subrange(line, 0, c));
        let value = Self::trim(vstd::slice::slice_subrange(line, c + 1, n));
        Ok((key, value))
    }

    /// The value of the header field with exactly this (already lower-cased) name.
    pub fn header(&self, name: &str) -> (r: Option<&String>)
        ensures
            match key_index(header_texts(self.headers@), name@) {
                Some(i) => r matches Some(v) && v@ == header_texts(self.headers@)[i].1,
                None => r is None,
            },
    {
        let n = self.headers.len();
        let mut i: usize = 0;
        while i < n
            invariant
                n == self.headers@.len(),
                i <= n,
                key_index(header_texts(self.headers@), name@) == key_index_from(
                    header_texts(self.headers@),
                    name@,
                    i as int,
                ),
            decreases n - i,
        {
            if str_eq(self.headers[i].0.as_str(), name) {
                return Some(&self.headers[i].1);
            }
            i = i + 1;
        }
        None
    }

    /// Parses a raw HTTP request buffer into a request.
    pub fn parse(buffer: &[u8]) -> (r: Result<Request, ParseError>)
        ensures
            match r {
                Ok(req) => parse_request(buffer@) == Ok::<_, ParseError>(req@),
                Err(e) => parse_request(buffer@) == Err::<RequestView, _>(e),
            },
    {
        let end = match Self::find_headers_end(buffer) {
            Some(e) => e,
            None => return Err(ParseError::NoHeaderTerminator),
        };
        proof {
            lemma_terminator_from(buffer@, 0);
            assert(is_terminator_at(buffer@, end as int));
        }
        let blen = buffer.len();
        let header = vstd::slice::slice_subrange(buffer, 0, end);
        let ghost h = header@;
        let hlen = header.len();
        let e0 = find_byte(header, LF, 0);
        proof {
            lemma_find_byte_from_bounds(h, LF, 0);
            assert(e0 <= hlen);
        }
        let first = Self::strip_cr(vstd::slice::slice_subrange(header, 0, e0));
        let (method, path, version) = match Self::split_request_line(first) {
            Ok(parts) => parts,
            Err(e) => return Err(e),
        };

        let mut headers: Vec<(String, String)> = Vec::new();
        assert(header_texts(headers@) =~= Seq::<(Seq<char>, Seq<char>)>::empty());
        let mut start: usize = e0 + 1;
        while start <= hlen
            invariant
                hlen == h.len(),
                hlen == end,
                end + 4 <= blen,
                header_end(buffer@) == Some(end as int),
                e0 as int == find_byte_from(h, LF, 0),
                request_line_parts(strip_cr(h.subrange(0, e0 as int))) == Ok::<_, ParseError>((method@, path@, version@)),
                blen == buffer@.len(),
                header@ == h,
                h == buffer@.subrange(0, end as int),
                e0 + 1 <= start <= hlen + 1,
                fold_header_lines(h, e0 + 1, Seq::empty()) == fold_header_lines(
                    h,
                    start as int,
                    header_texts(headers@),
                ),
            decreases hlen + 1 - start,
        {
            let e = find_byte(header, LF, start);
            proof {
                lemma_find_byte_from_bounds(h, LF, start as int);
            }
            let line = Self::strip_cr(vstd::slice::slice_subrange(header, start, e));
            if line.len() == 0 {
                start = hlen + 1;
            } else {
                let (k, v) = match Self::parse_header(line) {
                    Ok(kv) => kv,
                    Err(e) => return Err(e),
                };
                let key = match str_from_utf8(k) {
                    Some(s) => str_to_ascii_lowercase(s),
                    None => return Err(ParseError::InvalidHeaderKey),
                };
                let value = match str_from_utf8(v) {
                    Some(s) => s.to_owned(),
                    None => return Err(ParseError::InvalidHeaderValue),
                };
                insert_header_field(&mut headers, key, value);
                start = e + 1;
            }
        }
        let method = match str_from_utf8(method) {
            Some(s) => s.to_owned(),
            None => return Err(ParseError::InvalidUtf8),
        };
        let path = match str_from_utf8(path) {
            Some(s) => s.to_owned(),
            None => return Err(ParseError::InvalidUtf8),
        };
        let version = match str_from_utf8(version) {
            Some(s) => s.to_owned(),
            None => return Err(ParseError::InvalidUtf8),
        };
        Ok(Request { method, path, version, headers })
    }
}

/// Text equality of two string slices.
pub fn str_eq(a: &str, b: &str) -> (r: bool)
    ensures
        r == (a@ == b@),
{
    let n = a.unicode_len();
    if n != b.unicode_len() {
        return false;
    }
    let mut i: usize = 0;
    while i < n
        invariant
            n == a@.len(),
            n == b@.len(),
            i <= n,
            forall|j: int| 0 <= j < i ==> a@[j] == b@[j],
        decreases n - i,
    {
        if a.get_char(i) != b.get_char(i) {
            return false;
        }
        i = i + 1;
    }
    assert(a@ =~= b@);
    true
}

/// Map-like insertion into a list of header fields.
pub fn insert_header_field(headers: &mut Vec<(String, String)>, key: String, value: String)
    ensures
        header_texts(final(headers)@) == insert_header(header_texts(old(headers)@), key@, value@),
{
    let ghost old_texts = header_texts(headers@);
    match find_header_index(headers, key.as_str()) {
        Some(i) => {
            headers.set(i, (key, value));
            assert(header_texts(headers@) =~= old_texts.update(i as int, (key@, value@)));
        },
        None => {
            headers.push((key, value));
            assert(header_texts(headers@) =~= old_texts.push((key@, value@)));
        },
    }
}

/// The index of the entry named `key` in a list of header fields.
pub fn find_header_index(headers: &Vec<(String, String)>, key: &str) -> (r: Option<usize>)
    ensures
        match r {
            Some(i) => key_index(header_texts(headers@), key@) == Some(i as int) && i < headers@.len(),
            None => key_index(header_texts(headers@), key@) is None,
        },
{
    let ghost texts = header_texts(headers@);
    let n = headers.len();
    let mut i: usize = 0;
    while i < n
        invariant
            n == headers@.len(),
            texts == header_texts(headers@),
            i <= n,
            key_index(texts, key@) == key_index_from(texts, key@, i as int),
        decreases n - i,
    {
        if str_eq(headers[i].0.as_str(), key) {
            return Some(i);
        }
        i = i + 1;
    }
    None
}

} // verus!
