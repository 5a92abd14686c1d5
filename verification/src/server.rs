//! Connection-level decisions: reading a request head chunk by chunk, admitting the
//! request, and redirecting plain HTTP to HTTPS.
use vstd::prelude::*;
use vstd::utf8::{decode_utf8, valid_utf8};
use crate::http::request::{header_end, header_texts, is_terminator_at, key_index, parse_request, terminator_from, Request, RequestView, ParseError, CR, LF};
use crate::http::response::{Body, Response};
use crate::utils::templates::error_page;
use crate::utils::text::{decimal, u64_to_decimal};
use tokio_rustls::rustls::pki_types::PrivateKeyDer;

verus! {

/// Upper bound on the size of a request head, in bytes.
pub const MAX_HEADER_SIZE: u64 = 8192;

/// Seconds a client may take to send its request head.
pub const CONNECTION_TIMEOUT_SEC: u64 = 10;

/// What the connection handler does after handing a chunk to a [`HeadReader`].
#[derive(Debug, Clone, Copy, PartialEq, Eq, Structural)]
pub enum HeadStep {
    /// The head is complete: the data holds `\r\n\r\n`.
    Complete,
    /// Read another chunk.
    NeedMore,
    /// The data exceeds the size limit without holding `\r\n\r\n`.
    TooLarge,
    /// The client closed the connection before sending anything.
    Closed,
    /// The client closed the connection in the middle of the head.
    Truncated,
}

/// Accumulates the bytes of a request head until `\r\n\r\n` arrives.
/// After each chunk only the bytes that can complete a terminator are searched: the last
/// three bytes held before and the new ones.
pub struct HeadReader {
    data: Vec<u8>,
    search_start: usize,
    max_header_size: u64,
}

impl View for HeadReader {
    type V = Seq<u8>;

    closed spec fn view(&self) -> Seq<u8> {
        self.data@
    }
}

impl HeadReader {
    /// No terminator begins more than three bytes before the searched-from position.
    #[verifier::type_invariant]
    spec fn searched_prefix_has_no_terminator(self) -> bool {
        &&& self.search_start <= self.data@.len()
        &&& forall|j: int| 0 <= j && j + 3 < self.search_start ==> !is_terminator_at(self.data@, j)
    }

    /// The size limit the reader was made with.
    pub closed spec fn limit(&self) -> nat {
        self.max_header_size as nat
    }

    /// A reader with no data yet.
    pub fn new(max_header_size: u64) -> (r: HeadReader)
        ensures
            r@ == Seq::<u8>::empty(),
            r.limit() == max_header_size,
    {
        HeadReader { data: Vec::new(), search_start: 0, max_header_size }
    }

    /// Adds a chunk read from the client; an empty chunk means the client closed the
    /// connection.
    pub fn feed(&mut self, chunk: &[u8]) -> (step: HeadStep)
        ensures
            final(self).limit() == old(self).limit(),
            chunk@.len() == 0 ==> final(self)@ == old(self)@ && step == (if old(self)@.len() == 0 {
                HeadStep::Closed
            } else {
                HeadStep::Truncated
            }),
            chunk@.len() > 0 ==> final(self)@ == old(self)@ + chunk@ && step == (if header_end(
                final(self)@,
            ) is Some {
                HeadStep::Complete
            } else if final(self)@.len() > final(self).limit() {
                HeadStep::TooLarge
            } else {
                HeadStep::NeedMore
            }),
    {
        proof {
            use_type_invariant(&*self);
        }
        if chunk.len() == 0 {
            return if self.data.len() == 0 {
                HeadStep::Closed
            } else {
                HeadStep::Truncated
            };
        }
        let check_start: usize = if self.search_start >= 3 {
            self.search_start - 3
        } else {
            0
        };
        let ghost old_data = self.data@;
        let mut data: Vec<u8> = Vec::new();
        push_bytes(&mut data, self.data.as_slice());
        push_bytes(&mut data, chunk);
        proof {
            assert forall|j: int| 0 <= j < check_start implies !is_terminator_at(data@, j) by {
                assert(data@.subrange(j, j + 4) =~= old_data.subrange(j, j + 4));
                if is_terminator_at(data@, j) {
                    assert(data@[j] == old_data[j] && data@[j + 1] == old_data[j + 1]
                        && data@[j + 2] == old_data[j + 2] && data@[j + 3] == old_data[j + 3]);
                    assert(is_terminator_at(old_data, j));
                }
            }
            lemma_terminator_skip(data@, 0, check_start as int);
        }
        let found = contains_terminator_from(&data, check_start);
        let len = data.len();
        let max = self.max_header_size;
        if found {
            *self = HeadReader { data, search_start: self.search_start, max_header_size: max };
            HeadStep::Complete
        } else {
            proof {
                lemma_no_terminator_in(data@, check_start as int);
            }
            *self = HeadReader { data, search_start: len, max_header_size: max };
            if len as u64 > max {
                HeadStep::TooLarge
            } else {
                HeadStep::NeedMore
            }
        }
    }

    /// The bytes received so far.
    pub fn data(&self) -> (r: &Vec<u8>)
        ensures
            r@ == self@,
    {
        &self.data
    }
}

/// Appends all of `src` to `dst`.
fn push_bytes(dst: &mut Vec<u8>, src: &[u8])
    ensures
        final(dst)@ == old(dst)@ + src@,
{
    crate::utils::text::push_all(dst, src)
}

/// Without a terminator found from `from`, no position at or after `from` holds one.
proof fn lemma_no_terminator_in(s: Seq<u8>, from: int)
    requires
        0 <= from,
        terminator_from(s, from) is None,
    ensures
        forall|j: int| from <= j ==> !is_terminator_at(s, j),
    decreases s.len() - from,
{
    if from + 4 <= s.len() {
        lemma_no_terminator_in(s, from + 1);
    }
}

/// The search may start at `k` when no terminator begins before it.
proof fn lemma_terminator_skip(s: Seq<u8>, from: int, k: int)
    requires
        0 <= from <= k,
        forall|j: int| from <= j < k ==> !is_terminator_at(s, j),
    ensures
        terminator_from(s, from) == terminator_from(s, k),
    decreases k - from,
{
    if from < k {
        lemma_terminator_skip(s, from + 1, k);
    }
}

/// Whether `\r\n\r\n` begins at or after `from` in `data`.
fn contains_terminator_from(data: &Vec<u8>, from: usize) -> (r: bool)
    requires
        from <= data@.len(),
    ensures
        r == (terminator_from(data@, from as int) is Some),
{
    let n = data.len();
    let mut i = from;
    while i < n && n - i >= 4
        invariant
            n == data@.len(),
            from <= i,
            terminator_from(data@, from as int) == terminator_from(data@, i as int),
        decreases n - i,
    {
        if data[i] == CR && data[i + 1] == LF && data[i + 2] == CR && data[i + 3] == LF {
            return true;
        }
        i = i + 1;
    }
    false
}

/// The bytes of the percent-decoded form of a text, as `urlencoding::decode_binary`
/// computes them: `%` with two hex digits becomes that byte, every other byte stays.
pub open spec fn percent_decode(s: Seq<u8>) -> Seq<u8>
    decreases s.len(),
{
    if s.len() == 0 {
        s
    } else if s[0] != 37u8 {
        seq![s[0]] + percent_decode(s.drop_first())
    } else if s.len() < 3 {
        s
    } else {
        match (hex_value(s[1]), hex_value(s[2])) {
            (Some(hi), Some(lo)) => seq![(hi * 16 + lo) as u8] + percent_decode(s.skip(3)),
            (Some(_), None) => seq![37u8, s[1]] + percent_decode(s.skip(2)),
            _ => seq![37u8] + percent_decode(s.skip(1)),
        }
    }
}

/// The value of a hexadecimal digit byte.
pub open spec fn hex_value(b: u8) -> Option<nat> {
    if 48 <= b <= 57 {
        Some((b - 48) as nat)
    } else if 65 <= b <= 70 {
        Some((b - 55) as nat)
    } else if 97 <= b <= 102 {
        Some((b - 87) as nat)
    } else {
        None
    }
}

/// Percent-decodes a request path through `urlencoding::decode`.
/// The contract claims what the crate's source shows: the bytes are percent-decoded as
/// `percent_decode` states and the result is accepted exactly when it is valid UTF-8.
#[verifier::external_body]
fn url_decode(data: &str) -> (r: Option<String>)
    ensures
        r is Some <==> valid_utf8(percent_decode(vstd::utf8::encode_utf8(data@))),
        r matches Some(s) ==> s@ == decode_utf8(percent_decode(vstd::utf8::encode_utf8(data@))),
{
    urlencoding::decode(data).ok().map(|c| c.into_owned())
}

/// What the connection handler does with a received request head.
pub enum Admission {
    /// The client sent nothing: close without answering.
    Empty,
    /// Answer with this `400 Bad Request` response; holds the parse error when the head
    /// does not parse (and `None` when only the path fails to decode).
    Reject(Option<ParseError>, Response),
    /// Serve the decoded path.
    Serve(Request, String),
}

/// The path of a request once percent-decoded, if it decodes to valid UTF-8.
pub open spec fn decoded_path(path: Seq<char>) -> Option<Seq<char>> {
    let bytes = percent_decode(vstd::utf8::encode_utf8(path));
    if valid_utf8(bytes) {
        Some(decode_utf8(bytes))
    } else {
        None
    }
}

/// The `400 Bad Request` error page response.
pub open spec fn is_bad_request(r: Response) -> bool {
    &&& r.status@ == "400"@ + " "@ + "Bad Request"@
    &&& r.content_type@ == "text/html"@
    &&& r.headers@.len() == 0
    &&& r.body matches Body::Bytes(b) && b@ == error_page("400"@, "Bad Request"@) && r.content_length
        == b@.len()
}

/// Parses a request head and decodes its path; a head that does not parse, or whose
/// path does not decode, is answered `400 Bad Request`.
pub fn admit_request(head: &[u8]) -> (r: Admission)
    ensures
        head@.len() == 0 ==> r is Empty,
        head@.len() > 0 ==> match parse_request(head@) {
            Err(e) => r matches Admission::Reject(Some(e2), resp) && e2 == e && is_bad_request(resp),
            Ok(rv) => match decoded_path(rv.path) {
                None => r matches Admission::Reject(None, resp) && is_bad_request(resp),
                Some(p) => r matches Admission::Serve(req, path) && req@ == rv && path@ == p,
            },
        },
{
    if head.len() == 0 {
        return Admission::Empty;
    }
    match Request::parse(head) {
        Err(e) => Admission::Reject(Some(e), Response::error("400", "Bad Request")),
        Ok(request) => match url_decode(request.path.as_str()) {
            None => Admission::Reject(None, Response::error("400", "Bad Request")),
            Some(path) => Admission::Serve(request, path),
        },
    }
}

/// The answer when serving an admitted request failed (the file server reported an
/// error): `500 Internal Server Error` with its error page.
pub fn serving_failed() -> (r: Response)
    ensures
        r.status@ == "500 Internal Server Error"@,
        r.content_type@ == "text/html"@,
        r.headers@.len() == 0,
        r.body matches Body::Bytes(b) && b@ == error_page("500"@, "Internal Server Error"@)
            && r.content_length == b@.len(),
{
    let r = Response::error("500", "Internal Server Error");
    proof {
        reveal_strlit("500");
        reveal_strlit(" ");
        reveal_strlit("Internal Server Error");
        reveal_strlit("500 Internal Server Error");
        assert("500"@ + " "@ + "Internal Server Error"@ =~= "500 Internal Server Error"@);
    }
    r
}

/// The part of a text before its first `:` (all of it when there is none).
pub open spec fn before_colon(s: Seq<char>) -> Seq<char>
    decreases s.len(),
{
    if s.len() == 0 || s[0] == ':' {
        Seq::empty()
    } else {
        seq![s[0]] + before_colon(s.drop_first())
    }
}

/// The HTTPS location a plain HTTP request is redirected to: the host, without its port,
/// then the HTTPS port unless it is 443, then the request path. The host is looked up
/// under the name `Host` exactly; since a parsed request holds only lower-case header
/// names (`parsed_header_names_are_distinct_and_lower_case`), that lookup never succeeds
/// on a parsed request, and the local address stands in for the host.
pub open spec fn https_location(request: RequestView, local_ip: Seq<char>, https_port: u16) -> Seq<char> {
    let host = match key_index(request.headers, "Host"@) {
        Some(i) => request.headers[i].1,
        None => local_ip,
    };
    let port = if https_port == 443 {
        Seq::empty()
    } else {
        ":"@ + decimal(https_port as nat)
    };
    "https://"@ + before_colon(host) + port + request.path
}

/// The prefix of `s` before its first `:`.
fn prefix_before_colon(s: &str) -> (r: String)
    ensures
        r@ == before_colon(s@),
{
    let n = s.unicode_len();
    let mut i: usize = 0;
    while i < n && s.get_char(i) != ':'
        invariant
            n == s@.len(),
            i <= n,
            forall|j: int| 0 <= j < i ==> s@[j] != ':',
        decreases n - i,
    {
        i = i + 1;
    }
    proof {
        lemma_before_colon(s@, i as int);
    }
    s.substring_char(0, i).to_owned()
}

proof fn lemma_before_colon(s: Seq<char>, i: int)
    requires
        0 <= i <= s.len(),
        forall|j: int| 0 <= j < i ==> s[j] != ':',
        i == s.len() || s[i] == ':',
    ensures
        before_colon(s) == s.subrange(0, i),
    decreases i,
{
    if i > 0 {
        lemma_before_colon(s.drop_first(), i - 1);
        assert(s.subrange(0, i) =~= seq![s[0]] + s.drop_first().subrange(0, i - 1));
    } else {
        assert(s.subrange(0, 0) =~= Seq::<char>::empty());
    }
}

/// The location an HTTP request is redirected to on the HTTPS listener.
pub fn https_redirect_location(request: &Request, local_ip: &str, https_port: u16) -> (r: String)
    ensures
        r@ == https_location(request@, local_ip@, https_port),
{
    let host: &str = match request.header("Host") {
        Some(h) => h.as_str(),
        None => local_ip,
    };
    let mut location = "https://".to_owned();
    let clean_host = prefix_before_colon(host);
    location.append(clean_host.as_str());
    if https_port != 443 {
        location.append(":");
        let port = u64_to_decimal(https_port as u64);
        location.append(port.as_str());
    }
    location.append(request.path.as_str());
    location
}

/// The `301 Moved Permanently` response that sends a plain HTTP request to HTTPS.
pub fn https_redirect(request: &Request, local_ip: &str, https_port: u16) -> (r: Response)
    ensures
        r.status@ == "301 Moved Permanently"@,
        r.content_type@ == "text/html"@,
        r.content_length == 0,
        r.body matches Body::Bytes(b) && b@.len() == 0,
        header_texts(r.headers@) == seq![("Location"@, https_location(request@, local_ip@, https_port))],
{
    let location = https_redirect_location(request, local_ip, https_port);
    Response::redirect("301 Moved Permanently", location.as_str())
}

/// Tag of a PKCS#1 (RSA) private key in [`tls_material`]'s result.
pub const PKCS1_KEY: u8 = 1;

/// Tag of a SEC1 (elliptic curve) private key in [`tls_material`]'s result.
pub const SEC1_KEY: u8 = 2;

/// Tag of a PKCS#8 private key in [`tls_material`]'s result.
pub const PKCS8_KEY: u8 = 3;

/// Why the TLS certificate chain and key could not be taken from their PEM files.
#[derive(Debug, Clone, Copy, PartialEq, Eq, Structural)]
pub enum TlsMaterialError {
    /// Reading the certificate PEM failed.
    BadCertificates,
    /// Reading the key PEM failed.
    BadKey,
    /// The key PEM holds no private key.
    NoPrivateKey,
}

/// What `rustls_pemfile::certs` reads from PEM text, all sections taken: the DER bytes of
/// each certificate in order, or `None` when reading a section failed.
pub uninterp spec fn pem_certificates(pem: Seq<u8>) -> Option<Seq<Seq<u8>>>;

/// What `rustls_pemfile::private_key` reads from PEM text: the first private key, as its
/// kind tag ([`PKCS1_KEY`], [`SEC1_KEY`], [`PKCS8_KEY`]) and DER bytes; `Some(None)` when
/// the text holds no key; `None` when reading failed.
pub uninterp spec fn pem_private_key(pem: Seq<u8>) -> Option<Option<(u8, Seq<u8>)>>;

/// Reads every certificate of PEM text with `rustls_pemfile::certs`, stopping at the
/// first error. Claimed: the result is `pem_certificates` of the text (a function of the
/// bytes alone: the reader is the byte slice itself), each certificate by its DER bytes.
#[verifier::external_body]
fn pem_certs(pem: &[u8]) -> (r: Option<Vec<Vec<u8>>>)
    ensures
        match r {
            Some(v) => pem_certificates(pem@) == Some(v@.map_values(|c: Vec<u8>| c@)),
            None => pem_certificates(pem@) is None,
        },
{
    let mut reader: &[u8] = pem;
    match rustls_pemfile::certs(&mut reader).collect::<Result<Vec<_>, _>>() {
        Ok(certs) => Some(certs.iter().map(|c| c.to_vec()).collect()),
        Err(_) => None,
    }
}

/// Reads the first private key of PEM text with `rustls_pemfile::private_key`. Claimed:
/// the result is `pem_private_key` of the text, the key by its kind tag and DER bytes.
/// `PrivateKeyDer` is marked non-exhaustive; a kind other than the three that
/// `private_key` yields would count as a failed read.
#[verifier::external_body]
fn pem_key(pem: &[u8]) -> (r: Option<Option<(u8, Vec<u8>)>>)
    ensures
        match r {
            Some(Some((kind, der))) => pem_private_key(pem@) == Some(Some((kind, der@))),
            Some(None) => pem_private_key(pem@) == Some(None::<(u8, Seq<u8>)>),
            None => pem_private_key(pem@) is None,
        },
{
    let mut reader: &[u8] = pem;
    match rustls_pemfile::private_key(&mut reader) {
        Ok(Some(PrivateKeyDer::Pkcs1(k))) => Some(Some((PKCS1_KEY, k.secret_pkcs1_der().to_vec()))),
        Ok(Some(PrivateKeyDer::Sec1(k))) => Some(Some((SEC1_KEY, k.secret_sec1_der().to_vec()))),
        Ok(Some(PrivateKeyDer::Pkcs8(k))) => Some(Some((PKCS8_KEY, k.secret_pkcs8_der().to_vec()))),
        Ok(Some(_)) => None,
        Ok(None) => Some(None),
        Err(_) => None,
    }
}

/// Chooses the TLS material from what was read of the two PEM files: the certificate
/// chain and the key, or the first failure, certificates before key.
pub fn select_tls_material(
    certs: Option<Vec<Vec<u8>>>,
    key: Option<Option<(u8, Vec<u8>)>>,
) -> (r: Result<(Vec<Vec<u8>>, (u8, Vec<u8>)), TlsMaterialError>)
    ensures
        r == match certs {
            None => Err(TlsMaterialError::BadCertificates),
            Some(c) => match key {
                None => Err(TlsMaterialError::BadKey),
                Some(None) => Err(TlsMaterialError::NoPrivateKey),
                Some(Some(k)) => Ok((c, k)),
            },
        },
{
    match certs {
        None => Err(TlsMaterialError::BadCertificates),
        Some(c) => match key {
            None => Err(TlsMaterialError::BadKey),
            Some(None) => Err(TlsMaterialError::NoPrivateKey),
            Some(Some(k)) => Ok((c, k)),
        },
    }
}

/// The certificate chain and private key for the HTTPS listener, read from the contents
/// of the certificate and key PEM files; the certificates are read first, and a key file
/// that holds no key is refused with [`TlsMaterialError::NoPrivateKey`].
pub fn tls_material(cert_pem: &[u8], key_pem: &[u8]) -> (r: Result<(Vec<Vec<u8>>, (u8, Vec<u8>)), TlsMaterialError>)
    ensures
        match r {
            Ok((certs, (kind, der))) => pem_certificates(cert_pem@) == Some(
                certs@.map_values(|c: Vec<u8>| c@),
            ) && pem_private_key(key_pem@) == Some(Some((kind, der@))),
            Err(TlsMaterialError::BadCertificates) => pem_certificates(cert_pem@) is None,
            Err(TlsMaterialError::BadKey) => pem_certificates(cert_pem@) is Some
                && pem_private_key(key_pem@) is None,
            Err(TlsMaterialError::NoPrivateKey) => pem_certificates(cert_pem@) is Some
                && pem_private_key(key_pem@) == Some(None::<(u8, Seq<u8>)>),
        },
{
    let certs = pem_certs(cert_pem);
    let key = pem_key(key_pem);
    select_tls_material(certs, key)
}

} // verus!
