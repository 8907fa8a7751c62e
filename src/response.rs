//! Responses: the few that the server sends, and their exact wire form.
use vstd::prelude::*;
use crate::bytes::{decimal, push_all, push_decimal};
use crate::request::{
    content_length_bytes, content_length_lit, gzip_bytes, gzip_lit, opt_bytes_view, Encoding,
};

verus! {

pub open spec fn content_type_lit() -> Seq<u8> {
    seq![99u8, 111, 110, 116, 101, 110, 116, 45, 116, 121, 112, 101]
}

/// The bytes of `content-type`.
pub(crate) fn content_type_bytes() -> (r: Vec<u8>)
    ensures
        r@ == content_type_lit(),
{
    vec![99u8, 111, 110, 116, 101, 110, 116, 45, 116, 121, 112, 101]
}

pub open spec fn content_encoding_lit() -> Seq<u8> {
    seq![99u8, 111, 110, 116, 101, 110, 116, 45, 101, 110, 99, 111, 100, 105, 110, 103]
}

/// The bytes of `content-encoding`.
pub(crate) fn content_encoding_bytes() -> (r: Vec<u8>)
    ensures
        r@ == content_encoding_lit(),
{
    vec![99u8, 111, 110, 116, 101, 110, 116, 45, 101, 110, 99, 111, 100, 105, 110, 103]
}

pub open spec fn text_plain_lit() -> Seq<u8> {
    seq![116u8, 101, 120, 116, 47, 112, 108, 97, 105, 110]
}

/// The bytes of `text/plain`.
pub(crate) fn text_plain_bytes() -> (r: Vec<u8>)
    ensures
        r@ == text_plain_lit(),
{
    vec![116u8, 101, 120, 116, 47, 112, 108, 97, 105, 110]
}

pub open spec fn octet_stream_lit() -> Seq<u8> {
    seq![97u8, 112, 112, 108, 105, 99, 97, 116, 105, 111, 110, 47, 111, 99, 116, 101, 116, 45, 115, 116, 114, 101, 97, 109]
}

/// The bytes of `application/octet-stream`.
pub(crate) fn octet_stream_bytes() -> (r: Vec<u8>)
    ensures
        r@ == octet_stream_lit(),
{
    vec![97u8, 112, 112, 108, 105, 99, 97, 116, 105, 111, 110, 47, 111, 99, 116, 101, 116, 45, 115, 116, 114, 101, 97, 109]
}

pub open spec fn status_prefix_lit() -> Seq<u8> {
    seq![72u8, 84, 84, 80, 47, 49, 46, 49, 32]
}

/// The bytes of `HTTP/1.1 `.
pub(crate) fn status_prefix_bytes() -> (r: Vec<u8>)
    ensures
        r@ == status_prefix_lit(),
{
    vec![72u8, 84, 84, 80, 47, 49, 46, 49, 32]
}

pub open spec fn colon_space_lit() -> Seq<u8> {
    seq![58u8, 32]
}

/// The bytes of `: `.
pub(crate) fn colon_space_bytes() -> (r: Vec<u8>)
    ensures
        r@ == colon_space_lit(),
{
    vec![58u8, 32]
}

pub open spec fn crlf_lit() -> Seq<u8> {
    seq![13u8, 10]
}

/// The bytes of a line break, `\r\n`.
pub(crate) fn crlf_bytes() -> (r: Vec<u8>)
    ensures
        r@ == crlf_lit(),
{
    vec![13u8, 10]
}

/// A response header: a name and a value.
pub struct Header {
    pub name: Vec<u8>,
    pub value: Vec<u8>,
}

/// A response: a status code, headers in the order they are sent, a body.
pub struct Response {
    pub status: u16,
    pub headers: Vec<Header>,
    pub body: Vec<u8>,
}

pub struct ResponseView {
    pub status: u16,
    pub headers: Seq<(Seq<u8>, Seq<u8>)>,
    pub body: Seq<u8>,
}

impl View for Response {
    type V = ResponseView;

    open spec fn view(&self) -> ResponseView {
        ResponseView {
            status: self.status,
            headers: self.headers@.map_values(|h: Header| (h.name@, h.value@)),
            body: self.body@,
        }
    }
}

/// `200 OK` with the body, its length, its media type and, when the client
/// accepts gzip, a `content-encoding: gzip` header (the body is sent as is).
pub open spec fn ok_response(body: Seq<u8>, media: Seq<u8>, enc: Option<Encoding>) -> ResponseView {
    let hs = seq![(content_length_lit(), decimal(body.len())), (content_type_lit(), media)];
    ResponseView {
        status: 200,
        headers: match enc {
            Some(Encoding::Gzip) => hs.push((content_encoding_lit(), gzip_lit())),
            None => hs,
        },
        body,
    }
}

/// A response with the given status, an empty body and `content-length: 0`.
pub open spec fn empty_response(status: u16) -> ResponseView {
    ResponseView { status, headers: seq![(content_length_lit(), decimal(0))], body: Seq::empty() }
}

fn header(name: Vec<u8>, value: Vec<u8>) -> (h: Header)
    ensures
        h.name@ == name@,
        h.value@ == value@,
{
    Header { name, value }
}

fn decimal_bytes(n: usize) -> (r: Vec<u8>)
    ensures
        r@ == decimal(n as nat),
{
    let mut v: Vec<u8> = Vec::new();
    push_decimal(&mut v, n);
    assert(v@ =~= decimal(n as nat));
    v
}

pub fn response200(body: Vec<u8>, media: Vec<u8>, encoding: Option<Encoding>) -> (r: Response)
    ensures
        r@ == ok_response(body@, media@, encoding),
{
    let mut headers: Vec<Header> = Vec::new();
    headers.push(header(content_length_bytes(), decimal_bytes(body.len())));
    headers.push(header(content_type_bytes(), media));
    if let Some(Encoding::Gzip) = encoding {
        headers.push(header(content_encoding_bytes(), gzip_bytes()));
    }
    let r = Response { status: 200, headers, body };
    assert(r@.headers =~= ok_response(body@, media@, encoding).headers);
    r
}

/// `200 OK` with a `text/plain` body.
pub fn response200pt(body: Vec<u8>, encoding: Option<Encoding>) -> (r: Response)
    ensures
        r@ == ok_response(body@, text_plain_lit(), encoding),
{
    response200(body, text_plain_bytes(), encoding)
}

/// `200 OK` with an `application/octet-stream` body.
pub fn response200bin(body: Vec<u8>) -> (r: Response)
    ensures
        r@ == ok_response(body@, octet_stream_lit(), None),
{
    response200(body, octet_stream_bytes(), None)
}

fn empty(status: u16) -> (r: Response)
    ensures
        r@ == empty_response(status),
{
    let mut headers: Vec<Header> = Vec::new();
    headers.push(header(content_length_bytes(), decimal_bytes(0)));
    let r = Response { status, headers, body: Vec::new() };
    assert(r@.headers =~= empty_response(status).headers);
    assert(r@.body =~= Seq::<u8>::empty());
    r
}

/// `201 Created`, empty.
pub fn response201() -> (r: Response)
    ensures
        r@ == empty_response(201),
{
    empty(201)
}

/// `404 Not Found`, empty.
pub fn response404() -> (r: Response)
    ensures
        r@ == empty_response(404),
{
    empty(404)
}

/// The reason phrase that http gives a status code, if it has one.
pub uninterp spec fn canonical_reason_of(code: u16) -> Option<Seq<u8>>;

/// Relies on http::StatusCode::canonical_reason, reached through
/// StatusCode::from_u16, which takes the codes 100 to 999.
#[verifier::external_body]
fn canonical_reason(code: u16) -> (r: Option<Vec<u8>>)
    requires
        100 <= code <= 999,
    ensures
        opt_bytes_view(r) == canonical_reason_of(code),
{
    match http::StatusCode::from_u16(code) {
        Ok(s) => s.canonical_reason().map(|p| p.as_bytes().to_vec()),
        Err(_) => None,
    }
}

/// The reason phrase on the status line: empty where http has none.
pub open spec fn reason_phrase(code: u16) -> Seq<u8> {
    match canonical_reason_of(code) {
        Some(p) => p,
        None => Seq::empty(),
    }
}

/// One `name: value\r\n` line per header, in order.
pub open spec fn header_lines(hs: Seq<(Seq<u8>, Seq<u8>)>) -> Seq<u8>
    decreases hs.len(),
{
    if hs.len() == 0 {
        Seq::empty()
    } else {
        header_lines(hs.drop_last()) + hs.last().0 + colon_space_lit() + hs.last().1 + crlf_lit()
    }
}

/// The bytes of a response on the wire: the status line, the header lines,
/// a blank line, and the body.
pub open spec fn wire(r: ResponseView) -> Seq<u8> {
    status_prefix_lit() + decimal(r.status as nat) + seq![32u8] + reason_phrase(r.status)
        + crlf_lit() + header_lines(r.headers) + crlf_lit() + r.body
}

/// Writes a response as bytes.
pub fn serialize_response(resp: &Response) -> (r: Vec<u8>)
    requires
        100 <= resp.status <= 999,
    ensures
        r@ == wire(resp@),
{
    let mut out: Vec<u8> = Vec::new();
    let crlf = crlf_bytes();
    let colon = colon_space_bytes();
    push_all(&mut out, status_prefix_bytes().as_slice());
    push_decimal(&mut out, resp.status as usize);
    out.push(32);
    if let Some(p) = canonical_reason(resp.status) {
        push_all(&mut out, p.as_slice());
    }
    push_all(&mut out, crlf.as_slice());
    let ghost start = out@;
    let ghost hs = resp@.headers;
    let mut i: usize = 0;
    while i < resp.headers.len()
        invariant
            i <= resp.headers@.len(),
            hs == resp@.headers,
            crlf@ == crlf_lit(),
            colon@ == colon_space_lit(),
            out@ == start + header_lines(hs.subrange(0, i as int)),
        decreases resp.headers@.len() - i,
    {
        let h = &resp.headers[i];
        assert(hs.subrange(0, i + 1).drop_last() =~= hs.subrange(0, i as int));
        assert(hs.subrange(0, i + 1).last() == (h.name@, h.value@));
        push_all(&mut out, h.name.as_slice());
        push_all(&mut out, colon.as_slice());
        push_all(&mut out, h.value.as_slice());
        push_all(&mut out, crlf.as_slice());
        i = i + 1;
        assert(out@ =~= start + header_lines(hs.subrange(0, i as int)));
    }
    assert(hs.subrange(0, i as int) =~= hs);
    push_all(&mut out, crlf.as_slice());
    push_all(&mut out, resp.body.as_slice());
    assert(out@ =~= wire(resp@));
    out
}

} // verus!
