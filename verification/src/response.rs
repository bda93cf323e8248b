//! Writing a response out as the bytes sent to the client.
use vstd::prelude::*;
use vstd::utf8::valid_utf8;
use vstd::string::StringSliceAdditionalSpecFns;

verus! {

/// The protocol versions a response can carry.
#[derive(Clone, Copy, Debug, PartialEq, Eq, Structural)]
pub enum HttpVersion {
    Http09,
    Http10,
    Http11,
    Http2,
    Http3,
}

/// How a version is written on the status line.
pub open spec fn version_text(v: HttpVersion) -> Seq<char> {
    match v {
        HttpVersion::Http09 => "HTTP/0.9"@,
        HttpVersion::Http10 => "HTTP/1.0"@,
        HttpVersion::Http11 => "HTTP/1.1"@,
        HttpVersion::Http2 => "HTTP/2.0"@,
        HttpVersion::Http3 => "HTTP/3.0"@,
    }
}

impl HttpVersion {
    /// How this version is written on the status line, e.g. `"HTTP/1.1"`.
    pub fn as_str(&self) -> (r: &'static str)
        ensures
            r@ == version_text(*self),
    {
        match self {
            HttpVersion::Http09 => "HTTP/0.9",
            HttpVersion::Http10 => "HTTP/1.0",
            HttpVersion::Http11 => "HTTP/1.1",
            HttpVersion::Http2 => "HTTP/2.0",
            HttpVersion::Http3 => "HTTP/3.0",
        }
    }
}

/// A response to send: its version, status code, headers in order, and body.
pub struct HttpResponse {
    pub version: HttpVersion,
    pub status: u16,
    pub headers: Vec<(String, Vec<u8>)>,
    pub body: Vec<u8>,
}

/// The reason phrase `http::StatusCode::canonical_reason` gives for `code`.
pub uninterp spec fn http_canonical_reason(code: u16) -> Option<Seq<char>>;

/// The standard reason phrase of a status code, if it has one.
///
/// Trusted: calls `http::StatusCode::from_u16`, which accepts every code from 100 to 999,
/// and `http::StatusCode::canonical_reason`; the phrase is named `http_canonical_reason`.
#[verifier::external_body]
fn canonical_reason(code: u16) -> (r: Option<&'static str>)
    requires
        100 <= code <= 999,
    ensures
        r matches Some(s) ==> http_canonical_reason(code) == Some(s@),
        r is None ==> http_canonical_reason(code) is None,
{
    match http::StatusCode::from_u16(code) {
        Ok(status) => status.canonical_reason(),
        Err(_) => None,
    }
}

/// Whether `bytes` are valid UTF-8.
///
/// Trusted: calls `std::str::from_utf8`, which fails exactly on bytes that are not UTF-8.
#[verifier::external_body]
pub fn is_valid_utf8(bytes: &[u8]) -> (r: bool)
    ensures
        r == valid_utf8(bytes@),
{
    std::str::from_utf8(bytes).is_ok()
}

/// The phrase that follows a status code on the status line.
pub open spec fn reason_text(code: u16) -> Seq<char> {
    match http_canonical_reason(code) {
        Some(r) => r,
        None => "<unknown status code>"@,
    }
}

/// The three decimal digits of a code from 100 to 999.
pub open spec fn code_digits(code: u16) -> Seq<u8> {
    seq![(48 + code / 100) as u8, (48 + (code / 10) % 10) as u8, (48 + code % 10) as u8]
}

/// The bytes of the header lines `name:value\r\n`, in order.
pub open spec fn header_lines(hs: Seq<(Seq<char>, Seq<u8>)>) -> Seq<u8>
    decreases hs.len(),
{
    if hs.len() == 0 {
        seq![]
    } else {
        header_lines(hs.drop_last()) + vstd::utf8::encode_utf8(hs.last().0) + seq![58u8]
            + hs.last().1 + seq![13u8, 10u8]
    }
}

/// The header line of one header: its name, `:`, its value and CRLF.
pub open spec fn header_line(h: (Seq<char>, Seq<u8>)) -> Seq<u8> {
    vstd::utf8::encode_utf8(h.0) + seq![58u8] + h.1 + seq![13u8, 10u8]
}

/// Header lines are written one per header, each on its own: the lines of two lists of
/// headers one after the other are the lines of the first followed by those of the second,
/// and one header gives exactly its own line, whatever headers came before it.
pub proof fn lemma_header_lines_concat(a: Seq<(Seq<char>, Seq<u8>)>, b: Seq<(Seq<char>, Seq<u8>)>)
    ensures
        header_lines(a + b) == header_lines(a) + header_lines(b),
    decreases b.len(),
{
    if b.len() == 0 {
        assert(a + b =~= a);
        assert(header_lines(a) + header_lines(b) =~= header_lines(a));
    } else {
        assert((a + b).drop_last() =~= a + b.drop_last());
        assert((a + b).last() == b.last());
        lemma_header_lines_concat(a, b.drop_last());
        assert(header_lines(a + b) =~= header_lines(a) + header_lines(b));
    }
}

/// One header gives exactly its own line.
pub proof fn lemma_header_lines_single(h: (Seq<char>, Seq<u8>))
    ensures
        header_lines(seq![h]) == header_line(h),
{
    assert(seq![h].drop_last() =~= Seq::<(Seq<char>, Seq<u8>)>::empty());
    assert(seq![h].last() == h);
    assert(header_lines(seq![h].drop_last()) =~= Seq::<u8>::empty());
    assert(header_lines(seq![h]) =~= header_line(h));
}

/// The header lines of a list of headers take as many bytes as all their lines together:
/// appending a header adds exactly its line.
pub proof fn lemma_header_lines_push(hs: Seq<(Seq<char>, Seq<u8>)>, h: (Seq<char>, Seq<u8>))
    ensures
        header_lines(hs.push(h)) == header_lines(hs) + header_line(h),
        header_lines(hs.push(h)).len() == header_lines(hs).len() + header_line(h).len(),
{
    assert(hs.push(h) =~= hs + seq![h]);
    lemma_header_lines_concat(hs, seq![h]);
    lemma_header_lines_single(h);
}

/// The bytes of a response with the reason phrase `reason`: the status line
/// `version code reason`, the header lines, an empty line, and the body.
pub open spec fn response_bytes_with(
    version: HttpVersion,
    code: u16,
    reason: Seq<char>,
    headers: Seq<(Seq<char>, Seq<u8>)>,
    body: Seq<u8>,
) -> Seq<u8> {
    vstd::utf8::encode_utf8(version_text(version)) + seq![32u8] + code_digits(code) + seq![32u8]
        + vstd::utf8::encode_utf8(reason) + seq![13u8, 10u8] + header_lines(headers) + seq![
        13u8,
        10u8,
    ] + body
}

/// The bytes of a response, with the standard reason phrase of its code.
pub open spec fn response_bytes(
    version: HttpVersion,
    code: u16,
    headers: Seq<(Seq<char>, Seq<u8>)>,
    body: Seq<u8>,
) -> Seq<u8> {
    response_bytes_with(version, code, reason_text(code), headers, body)
}

/// A header value that `http::HeaderValue::to_str` accepts: visible ASCII or tab.
pub open spec fn visible_ascii(value: Seq<u8>) -> bool {
    forall|i: int| 0 <= i < value.len() ==> (32 <= value[i] < 127) || value[i] == 9
}

/// Appends `src` to `out`.
fn push_bytes(out: &mut Vec<u8>, src: &[u8])
    ensures
        final(out)@ == old(out)@ + src@,
{
    let mut i: usize = 0;
    while i < src.len()
        invariant
            i <= src@.len(),
            out@ == old(out)@ + src@.take(i as int),
        decreases src@.len() - i,
    {
        out.push(src[i]);
        assert(src@.take(i + 1) =~= src@.take(i as int).push(src@[i as int]));
        i = i + 1;
    }
    assert(src@.take(i as int) =~= src@);
}

/// The bytes of `response` with `reason` after its status code.
pub fn write_response(response: HttpResponse, reason: &str) -> (r: Vec<u8>)
    requires
        100 <= response.status <= 999,
    ensures
        r@ == response_bytes_with(
            response.version,
            response.status,
            reason@,
            response.headers.deep_view(),
            response.body@,
        ),
{
    let HttpResponse { version, status, headers, body } = response;
    let mut out: Vec<u8> = Vec::new();
    push_bytes(&mut out, version.as_str().as_bytes());
    out.push(32);
    out.push((48 + status / 100) as u8);
    out.push((48 + (status / 10) % 10) as u8);
    out.push((48 + status % 10) as u8);
    out.push(32);
    push_bytes(&mut out, reason.as_bytes());
    out.push(13);
    out.push(10);
    let ghost hs = headers.deep_view();
    let ghost head_start = out@;
    let mut i: usize = 0;
    while i < headers.len()
        invariant
            i <= headers.len(),
            hs == headers.deep_view(),
            out@ == head_start + header_lines(hs.take(i as int)),
        decreases headers.len() - i,
    {
        push_bytes(&mut out, headers[i].0.as_str().as_bytes());
        out.push(58);
        push_bytes(&mut out, headers[i].1.as_slice());
        out.push(13);
        out.push(10);
        proof {
            assert(hs.take(i + 1).drop_last() =~= hs.take(i as int));
            assert(hs.take(i + 1).last() == (headers@[i as int].0@, headers@[i as int].1@));
            assert(out@ =~= head_start + header_lines(hs.take(i + 1)));
        }
        i = i + 1;
    }
    out.push(13);
    out.push(10);
    push_bytes(&mut out, body.as_slice());
    proof {
        assert(hs.take(i as int) =~= hs);
        assert(out@ =~= response_bytes_with(version, status, reason@, hs, body@));
    }
    out
}

/// The bytes sent for `response`: its status line carries the standard reason phrase of
/// its code, or `<unknown status code>`.
pub fn response_to_bytes(response: HttpResponse) -> (r: Vec<u8>)
    requires
        100 <= response.status <= 999,
        forall|i: int| 0 <= i < response.headers.len() ==> visible_ascii(#[trigger] response.headers@[i].1@),
        valid_utf8(response.body@),
    ensures
        r@ == response_bytes(response.version, response.status, response.headers.deep_view(), response.body@),
{
    let reason = match canonical_reason(response.status) {
        Some(text) => text,
        None => "<unknown status code>",
    };
    write_response(response, reason)
}

/// Whether every byte of `value` is visible ASCII or tab.
fn is_visible_ascii(value: &Vec<u8>) -> (r: bool)
    ensures
        r == visible_ascii(value@),
{
    let mut i: usize = 0;
    while i < value.len()
        invariant
            i <= value.len(),
            forall|j: int| 0 <= j < i ==> (32 <= value@[j] < 127) || value@[j] == 9,
        decreases value.len() - i,
    {
        let b = value[i];
        if !((32 <= b && b < 127) || b == 9) {
            return false;
        }
        i = i + 1;
    }
    true
}

/// The bytes sent for `response`, or `None` when a header value is not visible ASCII or
/// the body is not UTF-8 (the responses that cannot be written out as text).
pub fn try_response_to_bytes(response: HttpResponse) -> (r: Option<Vec<u8>>)
    requires
        100 <= response.status <= 999,
    ensures
        r is Some <==> (forall|i: int| 0 <= i < response.headers.len() ==> visible_ascii(#[trigger] response.headers@[i].1@))
            && valid_utf8(response.body@),
        r matches Some(bytes) ==> bytes@ == response_bytes(
            response.version,
            response.status,
            response.headers.deep_view(),
            response.body@,
        ),
{
    let mut i: usize = 0;
    while i < response.headers.len()
        invariant
            i <= response.headers.len(),
            forall|j: int| 0 <= j < i ==> visible_ascii(#[trigger] response.headers@[j].1@),
        decreases response.headers.len() - i,
    {
        if !is_visible_ascii(&response.headers[i].1) {
            return None;
        }
        i = i + 1;
    }
    if !is_valid_utf8(response.body.as_slice()) {
        return None;
    }
    Some(response_to_bytes(response))
}

} // verus!
