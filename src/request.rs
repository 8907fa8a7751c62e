//! Incremental parsing of a request head: detect the blank line that ends
//! the head, hand the head to httparse, and pick out the method, the path
//! and the headers that the server acts on.
use vstd::prelude::*;
use crate::bytes::{
    contains_ignore_case, contains_ignore_case_exec, eq_ignore_case, eq_ignore_case_at,
    parse_usize, parse_usize_exec,
};

verus! {

pub open spec fn get_lit() -> Seq<u8> {
    seq![71u8, 69, 84]
}

/// The bytes of `GET`.
pub(crate) fn get_bytes() -> (r: Vec<u8>)
    ensures
        r@ == get_lit(),
{
    vec![71u8, 69, 84]
}

pub open spec fn post_lit() -> Seq<u8> {
    seq![80u8, 79, 83, 84]
}

/// The bytes of `POST`.
pub(crate) fn post_bytes() -> (r: Vec<u8>)
    ensures
        r@ == post_lit(),
{
    vec![80u8, 79, 83, 84]
}

pub open spec fn connection_lit() -> Seq<u8> {
    seq![99u8, 111, 110, 110, 101, 99, 116, 105, 111, 110]
}

/// The bytes of `connection`.
pub(crate) fn connection_bytes() -> (r: Vec<u8>)
    ensures
        r@ == connection_lit(),
{
    vec![99u8, 111, 110, 110, 101, 99, 116, 105, 111, 110]
}

pub open spec fn user_agent_lit() -> Seq<u8> {
    seq![117u8, 115, 101, 114, 45, 97, 103, 101, 110, 116]
}

/// The bytes of `user-agent`.
pub(crate) fn user_agent_bytes() -> (r: Vec<u8>)
    ensures
        r@ == user_agent_lit(),
{
    vec![117u8, 115, 101, 114, 45, 97, 103, 101, 110, 116]
}

pub open spec fn accept_encoding_lit() -> Seq<u8> {
    seq![97u8, 99, 99, 101, 112, 116, 45, 101, 110, 99, 111, 100, 105, 110, 103]
}

/// The bytes of `accept-encoding`.
pub(crate) fn accept_encoding_bytes() -> (r: Vec<u8>)
    ensures
        r@ == accept_encoding_lit(),
{
    vec![97u8, 99, 99, 101, 112, 116, 45, 101, 110, 99, 111, 100, 105, 110, 103]
}

pub open spec fn content_length_lit() -> Seq<u8> {
    seq![99u8, 111, 110, 116, 101, 110, 116, 45, 108, 101, 110, 103, 116, 104]
}

/// The bytes of `content-length`.
pub(crate) fn content_length_bytes() -> (r: Vec<u8>)
    ensures
        r@ == content_length_lit(),
{
    vec![99u8, 111, 110, 116, 101, 110, 116, 45, 108, 101, 110, 103, 116, 104]
}

pub open spec fn close_lit() -> Seq<u8> {
    seq![99u8, 108, 111, 115, 101]
}

/// The bytes of `close`.
pub(crate) fn close_bytes() -> (r: Vec<u8>)
    ensures
        r@ == close_lit(),
{
    vec![99u8, 108, 111, 115, 101]
}

pub open spec fn gzip_lit() -> Seq<u8> {
    seq![103u8, 122, 105, 112]
}

/// The bytes of `gzip`.
pub(crate) fn gzip_bytes() -> (r: Vec<u8>)
    ensures
        r@ == gzip_lit(),
{
    vec![103u8, 122, 105, 112]
}

/// A header line as httparse hands it over.
pub struct RawHeader {
    pub name: Vec<u8>,
    pub value: Vec<u8>,
}

/// A complete request head as httparse hands it over.
pub struct RawHead {
    pub method: Option<Vec<u8>>,
    pub path: Option<Vec<u8>>,
    pub headers: Vec<RawHeader>,
    pub body_offset: usize,
}

pub struct RawHeadView {
    pub method: Option<Seq<u8>>,
    pub path: Option<Seq<u8>>,
    pub headers: Seq<(Seq<u8>, Seq<u8>)>,
    pub body_offset: nat,
}

pub open spec fn opt_bytes_view(o: Option<Vec<u8>>) -> Option<Seq<u8>> {
    match o {
        Some(v) => Some(v@),
        None => None,
    }
}

impl View for RawHead {
    type V = RawHeadView;

    open spec fn view(&self) -> RawHeadView {
        RawHeadView {
            method: opt_bytes_view(self.method),
            path: opt_bytes_view(self.path),
            headers: self.headers@.map_values(|h: RawHeader| (h.name@, h.value@)),
            body_offset: self.body_offset as nat,
        }
    }
}

/// What httparse makes of a buffer: `None` for an error, `Some(None)` for a
/// head that is not complete yet, `Some(Some(h))` for a complete head.
pub uninterp spec fn httparse_request(buf: Seq<u8>) -> Option<Option<RawHeadView>>;

/// Whether a byte string is valid UTF-8.
pub uninterp spec fn utf8_valid(b: Seq<u8>) -> bool;

#[verifier::external_type_specification]
#[verifier::external_body]
pub struct ExHttparseError(httparse::Error);

/// Relies on httparse::Request::parse, given room for sixteen headers: it
/// reports a complete head with the offset at which the body starts, a head
/// that needs more bytes, or a syntax error.
#[verifier::external_body]
fn httparse_head(buf: &[u8]) -> (r: Result<Option<RawHead>, httparse::Error>)
    ensures
        match r {
            Ok(Some(h)) => httparse_request(buf@) == Some(Some(h@)) && h.body_offset <= buf@.len(),
            Ok(None) => httparse_request(buf@) == Some(None::<RawHeadView>),
            Err(_) => httparse_request(buf@) is None,
        },
{
    let mut headers = [httparse::EMPTY_HEADER; 16];
    let mut req = httparse::Request::new(&mut headers);
    match req.parse(buf)? {
        httparse::Status::Complete(n) => Ok(Some(RawHead {
            method: req.method.map(|m| m.as_bytes().to_vec()),
            path: req.path.map(|p| p.as_bytes().to_vec()),
            headers: req.headers.iter().map(|h| RawHeader {
                name: h.name.as_bytes().to_vec(),
                value: h.value.to_vec(),
            }).collect(),
            body_offset: n,
        })),
        httparse::Status::Partial => Ok(None),
    }
}

/// Relies on std::str::from_utf8: whether the bytes are valid UTF-8.
#[verifier::external_body]
fn is_utf8(b: &[u8]) -> (r: bool)
    ensures
        r == utf8_valid(b@),
{
    std::str::from_utf8(b).is_ok()
}

#[derive(PartialEq, Eq, Structural, Clone, Copy, Debug)]
pub enum Method {
    Get,
    Post,
}

/// A content coding that the client accepts.
#[derive(PartialEq, Eq, Structural, Clone, Copy, Debug)]
pub enum Encoding {
    Gzip,
}

/// Why a request head is refused; the connection is dropped on any of them.
#[derive(PartialEq, Eq, Structural, Clone, Copy, Debug)]
pub enum Malformed {
    /// The request line or a header is not valid HTTP.
    Syntax,
    /// A method other than `GET` or `POST`.
    UnsupportedMethod,
    MissingMethod,
    MissingPath,
    /// A header of interest whose value is not valid UTF-8, or a
    /// `Content-Length` that is not a decimal `usize`.
    BadHeader,
}

/// The parts of a request head that the server acts on.
pub struct RequestHead {
    pub method: Method,
    /// The request target, as sent.
    pub path: Vec<u8>,
    /// `Connection: close` was sent.
    pub close: bool,
    pub user_agent: Option<Vec<u8>>,
    pub encoding: Option<Encoding>,
    /// The declared body length; 0 when absent.
    pub content_length: usize,
}

pub struct RequestHeadView {
    pub method: Method,
    pub path: Seq<u8>,
    pub close: bool,
    pub user_agent: Option<Seq<u8>>,
    pub encoding: Option<Encoding>,
    pub content_length: nat,
}

impl View for RequestHead {
    type V = RequestHeadView;

    open spec fn view(&self) -> RequestHeadView {
        RequestHeadView {
            method: self.method,
            path: self.path@,
            close: self.close,
            user_agent: opt_bytes_view(self.user_agent),
            encoding: self.encoding,
            content_length: self.content_length as nat,
        }
    }
}

/// The result of parsing the bytes received so far.
pub enum ParseOutcome {
    NeedMoreData,
    /// A complete head, and the offset in the buffer at which its body starts.
    Parsed(RequestHead, usize),
    Malformed(Malformed),
}

pub enum ParseOutcomeView {
    NeedMoreData,
    Parsed(RequestHeadView, nat),
    Malformed(Malformed),
}

impl View for ParseOutcome {
    type V = ParseOutcomeView;

    open spec fn view(&self) -> ParseOutcomeView {
        match self {
            ParseOutcome::NeedMoreData => ParseOutcomeView::NeedMoreData,
            ParseOutcome::Parsed(h, n) => ParseOutcomeView::Parsed(h@, *n as nat),
            ParseOutcome::Malformed(m) => ParseOutcomeView::Malformed(*m),
        }
    }
}

/// The coding recorded for an `Accept-Encoding` value: gzip when the value
/// mentions it anywhere, in any case.
pub open spec fn encoding_of(v: Seq<u8>) -> Option<Encoding> {
    if contains_ignore_case(v, gzip_lit()) {
        Some(Encoding::Gzip)
    } else {
        None
    }
}

pub fn parse_encoding(v: &[u8]) -> (r: Option<Encoding>)
    ensures
        r == encoding_of(v@),
{
    let g = gzip_bytes();
    if contains_ignore_case_exec(v, g.as_slice()) {
        Some(Encoding::Gzip)
    } else {
        None
    }
}

/// The fields that a `GET` head yields from its headers, read in order:
/// the last `Connection`, `User-Agent` and `Accept-Encoding` win. `None`
/// when one of them has a value that is not UTF-8.
pub open spec fn get_fields(hs: Seq<(Seq<u8>, Seq<u8>)>) -> Option<
    (bool, Option<Seq<u8>>, Option<Encoding>),
>
    decreases hs.len(),
{
    if hs.len() == 0 {
        Some((false, None, None))
    } else {
        match get_fields(hs.drop_last()) {
            None => None,
            Some((close, ua, enc)) => {
                let (n, v) = hs.last();
                if eq_ignore_case(n, connection_lit()) {
                    if utf8_valid(v) {
                        Some((eq_ignore_case(v, close_lit()), ua, enc))
                    } else {
                        None
                    }
                } else if eq_ignore_case(n, user_agent_lit()) {
                    if utf8_valid(v) {
                        Some((close, Some(v), enc))
                    } else {
                        None
                    }
                } else if eq_ignore_case(n, accept_encoding_lit()) {
                    if utf8_valid(v) {
                        Some((close, ua, encoding_of(v)))
                    } else {
                        None
                    }
                } else {
                    Some((close, ua, enc))
                }
            },
        }
    }
}

/// The fields that a `POST` head yields from its headers, read in order:
/// the last `Connection` and `Content-Length` win. `None` when one of them
/// is not UTF-8, or a `Content-Length` is not a decimal `usize`.
pub open spec fn post_fields(hs: Seq<(Seq<u8>, Seq<u8>)>) -> Option<(bool, nat)>
    decreases hs.len(),
{
    if hs.len() == 0 {
        Some((false, 0))
    } else {
        match post_fields(hs.drop_last()) {
            None => None,
            Some((close, len)) => {
                let (n, v) = hs.last();
                if eq_ignore_case(n, connection_lit()) {
                    if utf8_valid(v) {
                        Some((eq_ignore_case(v, close_lit()), len))
                    } else {
                        None
                    }
                } else if eq_ignore_case(n, content_length_lit()) {
                    if utf8_valid(v) && parse_usize(v) is Some {
                        Some((close, parse_usize(v)->0))
                    } else {
                        None
                    }
                } else {
                    Some((close, len))
                }
            },
        }
    }
}

/// What a complete head means to the server.
pub open spec fn interpret(h: RawHeadView) -> Result<RequestHeadView, Malformed> {
    match h.method {
        None => Err(Malformed::MissingMethod),
        Some(m) => if m == get_lit() || m == post_lit() {
            match h.path {
                None => Err(Malformed::MissingPath),
                Some(path) => if m == get_lit() {
                    match get_fields(h.headers) {
                        None => Err(Malformed::BadHeader),
                        Some((close, ua, enc)) => Ok(
                            RequestHeadView {
                                method: Method::Get,
                                path,
                                close,
                                user_agent: ua,
                                encoding: enc,
                                content_length: 0,
                            },
                        ),
                    }
                } else {
                    match post_fields(h.headers) {
                        None => Err(Malformed::BadHeader),
                        Some((close, len)) => Ok(
                            RequestHeadView {
                                method: Method::Post,
                                path,
                                close,
                                user_agent: None,
                                encoding: None,
                                content_length: len,
                            },
                        ),
                    }
                },
            }
        } else {
            Err(Malformed::UnsupportedMethod)
        },
    }
}

fn equal_ignore_case(a: &[u8], b: &[u8]) -> (r: bool)
    ensures
        r == eq_ignore_case(a@, b@),
{
    if a.len() != b.len() {
        return false;
    }
    assert(a@.subrange(0, b@.len() as int) =~= a@);
    eq_ignore_case_at(a, 0, b)
}

proof fn lemma_get_fields_fail(hs: Seq<(Seq<u8>, Seq<u8>)>, k: int)
    requires
        0 <= k <= hs.len(),
        get_fields(hs.subrange(0, k)) is None,
    ensures
        get_fields(hs) is None,
    decreases hs.len() - k,
{
    if k < hs.len() {
        assert(hs.subrange(0, k + 1).drop_last() =~= hs.subrange(0, k));
        lemma_get_fields_fail(hs, k + 1);
    } else {
        assert(hs.subrange(0, k) =~= hs);
    }
}

proof fn lemma_post_fields_fail(hs: Seq<(Seq<u8>, Seq<u8>)>, k: int)
    requires
        0 <= k <= hs.len(),
        post_fields(hs.subrange(0, k)) is None,
    ensures
        post_fields(hs) is None,
    decreases hs.len() - k,
{
    if k < hs.len() {
        assert(hs.subrange(0, k + 1).drop_last() =~= hs.subrange(0, k));
        lemma_post_fields_fail(hs, k + 1);
    } else {
        assert(hs.subrange(0, k) =~= hs);
    }
}

fn same_bytes(a: &[u8], b: &[u8]) -> (r: bool)
    ensures
        r == (a@ == b@),
{
    if a.len() != b.len() {
        return false;
    }
    let mut i: usize = 0;
    while i < a.len()
        invariant
            i <= a@.len(),
            a@.len() == b@.len(),
            forall|j: int| 0 <= j < i ==> a@[j] == b@[j],
        decreases a@.len() - i,
    {
        if a[i] != b[i] {
            return false;
        }
        i = i + 1;
    }
    assert(a@ =~= b@);
    true
}

fn read_get_fields(headers: &Vec<RawHeader>) -> (r: Option<(bool, Option<Vec<u8>>, Option<Encoding>)>)
    ensures
        match r {
            Some((close, ua, enc)) => get_fields(headers@.map_values(
                |h: RawHeader| (h.name@, h.value@),
            )) == Some((close, opt_bytes_view(ua), enc)),
            None => get_fields(headers@.map_values(|h: RawHeader| (h.name@, h.value@))) is None,
        },
{
    let ghost hs = headers@.map_values(|h: RawHeader| (h.name@, h.value@));
    let connection = connection_bytes();
    let user_agent = user_agent_bytes();
    let accept_encoding = accept_encoding_bytes();
    let close_word = close_bytes();
    let mut close = false;
    let mut ua: Option<Vec<u8>> = None;
    let mut enc: Option<Encoding> = None;
    let mut i: usize = 0;
    while i < headers.len()
        invariant
            i <= headers@.len(),
            hs == headers@.map_values(|h: RawHeader| (h.name@, h.value@)),
            connection@ == connection_lit(),
            user_agent@ == user_agent_lit(),
            accept_encoding@ == accept_encoding_lit(),
            close_word@ == close_lit(),
            get_fields(hs.subrange(0, i as int)) == Some((close, opt_bytes_view(ua), enc)),
        decreases headers@.len() - i,
    {
        let h = &headers[i];
        assert(hs.subrange(0, i + 1).drop_last() =~= hs.subrange(0, i as int));
        assert(hs.subrange(0, i + 1).last() == (h.name@, h.value@));
        if equal_ignore_case(h.name.as_slice(), connection.as_slice()) {
            if !is_utf8(h.value.as_slice()) {
                proof {
                    lemma_get_fields_fail(hs, i + 1);
                }
                return None;
            }
            close = equal_ignore_case(h.value.as_slice(), close_word.as_slice());
        } else if equal_ignore_case(h.name.as_slice(), user_agent.as_slice()) {
            if !is_utf8(h.value.as_slice()) {
                proof {
                    lemma_get_fields_fail(hs, i + 1);
                }
                return None;
            }
            ua = Some(h.value.clone());
        } else if equal_ignore_case(h.name.as_slice(), accept_encoding.as_slice()) {
            if !is_utf8(h.value.as_slice()) {
                proof {
                    lemma_get_fields_fail(hs, i + 1);
                }
                return None;
            }
            enc = parse_encoding(h.value.as_slice());
        }
        i = i + 1;
    }
    assert(hs.subrange(0, i as int) =~= hs);
    Some((close, ua, enc))
}

fn read_post_fields(headers: &Vec<RawHeader>) -> (r: Option<(bool, usize)>)
    ensures
        match r {
            Some((close, len)) => post_fields(headers@.map_values(
                |h: RawHeader| (h.name@, h.value@),
            )) == Some((close, len as nat)),
            None => post_fields(headers@.map_values(|h: RawHeader| (h.name@, h.value@))) is None,
        },
{
    let ghost hs = headers@.map_values(|h: RawHeader| (h.name@, h.value@));
    let connection = connection_bytes();
    let content_length = content_length_bytes();
    let close_word = close_bytes();
    let mut close = false;
    let mut len: usize = 0;
    let mut i: usize = 0;
    while i < headers.len()
        invariant
            i <= headers@.len(),
            hs == headers@.map_values(|h: RawHeader| (h.name@, h.value@)),
            connection@ == connection_lit(),
            content_length@ == content_length_lit(),
            close_word@ == close_lit(),
            post_fields(hs.subrange(0, i as int)) == Some((close, len as nat)),
        decreases headers@.len() - i,
    {
        let h = &headers[i];
        assert(hs.subrange(0, i + 1).drop_last() =~= hs.subrange(0, i as int));
        assert(hs.subrange(0, i + 1).last() == (h.name@, h.value@));
        if equal_ignore_case(h.name.as_slice(), connection.as_slice()) {
            if !is_utf8(h.value.as_slice()) {
                proof {
                    lemma_post_fields_fail(hs, i + 1);
                }
                return None;
            }
            close = equal_ignore_case(h.value.as_slice(), close_word.as_slice());
        } else if equal_ignore_case(h.name.as_slice(), content_length.as_slice()) {
            if !is_utf8(h.value.as_slice()) {
                proof {
                    lemma_post_fields_fail(hs, i + 1);
                }
                return None;
            }
            match parse_usize_exec(h.value.as_slice()) {
                Some(n) => {
                    len = n;
                },
                None => {
                    proof {
                        lemma_post_fields_fail(hs, i + 1);
                    }
                    return None;
                },
            }
        }
        i = i + 1;
    }
    assert(hs.subrange(0, i as int) =~= hs);
    Some((close, len))
}

/// Turns a complete head into the request that the server acts on.
pub fn interpret_head(raw: RawHead) -> (r: Result<RequestHead, Malformed>)
    ensures
        match r {
            Ok(h) => interpret(raw@) == Ok::<RequestHeadView, Malformed>(h@),
            Err(e) => interpret(raw@) == Err::<RequestHeadView, Malformed>(e),
        },
{
    let method = match raw.method {
        None => {
            return Err(Malformed::MissingMethod);
        },
        Some(m) => m,
    };
    let get = get_bytes();
    let post = post_bytes();
    let is_get = same_bytes(method.as_slice(), get.as_slice());
    let is_post = same_bytes(method.as_slice(), post.as_slice());
    if !is_get && !is_post {
        return Err(Malformed::UnsupportedMethod);
    }
    let path = match raw.path {
        None => {
            return Err(Malformed::MissingPath);
        },
        Some(p) => p,
    };
    if is_get {
        match read_get_fields(&raw.headers) {
            None => Err(Malformed::BadHeader),
            Some((close, user_agent, encoding)) => Ok(
                RequestHead { method: Method::Get, path, close, user_agent, encoding, content_length: 0 },
            ),
        }
    } else {
        match read_post_fields(&raw.headers) {
            None => Err(Malformed::BadHeader),
            Some((close, content_length)) => Ok(
                RequestHead {
                    method: Method::Post,
                    path,
                    close,
                    user_agent: None,
                    encoding: None,
                    content_length,
                },
            ),
        }
    }
}

/// `\r\n\r\n` starts at `i`.
pub open spec fn blank_line_at(s: Seq<u8>, i: int) -> bool {
    0 <= i && i + 4 <= s.len() && s[i] == 13 && s[i + 1] == 10 && s[i + 2] == 13 && s[i + 3] == 10
}

/// The first position at or after `i` where `\r\n\r\n` starts.
pub open spec fn first_blank_line_from(s: Seq<u8>, i: nat) -> Option<nat>
    decreases s.len() - i,
{
    if i + 4 > s.len() {
        None
    } else if blank_line_at(s, i as int) {
        Some(i)
    } else {
        first_blank_line_from(s, i + 1)
    }
}

/// The first position at or after `i` that holds neither `\r` nor `\n`
/// (or the end).
pub open spec fn skip_line_breaks(s: Seq<u8>, i: nat) -> nat
    decreases s.len() - i,
{
    if i < s.len() && (s[i as int] == 13 || s[i as int] == 10) {
        skip_line_breaks(s, i + 1)
    } else {
        i
    }
}

/// The length of the request head: the bytes up to and including the first
/// `\r\n\r\n` after any blank lines that come before the request line,
/// if there is one.
pub open spec fn head_len(s: Seq<u8>) -> Option<nat> {
    match first_blank_line_from(s, skip_line_breaks(s, 0)) {
        Some(i) => Some(i + 4),
        None => None,
    }
}

/// What the bytes received so far amount to. Until the head's closing blank
/// line has come, more data is needed; then the head alone is handed to
/// httparse, and a complete head is interpreted.
pub open spec fn parse_outcome(buf: Seq<u8>) -> ParseOutcomeView {
    match head_len(buf) {
        None => ParseOutcomeView::NeedMoreData,
        Some(n) => match httparse_request(buf.subrange(0, n as int)) {
            None => ParseOutcomeView::Malformed(Malformed::Syntax),
            Some(None) => ParseOutcomeView::NeedMoreData,
            Some(Some(h)) => match interpret(h) {
                Ok(head) => ParseOutcomeView::Parsed(head, h.body_offset),
                Err(e) => ParseOutcomeView::Malformed(e),
            },
        },
    }
}

/// Finds the length of the request head in `buf`.
/// A position from which the search for the head's closing blank line may
/// resume: none starts between the leading line breaks and it, and each
/// position before it has four bytes after it, so that more bytes cannot
/// change what was found there.
pub open spec fn resumable(s: Seq<u8>, from: nat) -> bool {
    from == 0 || (skip_line_breaks(s, 0) <= from && from + 3 <= s.len() && forall|j: int|
        skip_line_breaks(s, 0) <= j < from ==> !#[trigger] blank_line_at(s, j))
}

/// Finds the length of the request head in `buf`, resuming the search at
/// `from`.
pub fn find_head_len_from(buf: &[u8], from: usize) -> (r: Option<usize>)
    requires
        resumable(buf@, from as nat),
    ensures
        r matches Some(n) ==> head_len(buf@) == Some(n as nat) && n <= buf@.len(),
        r is None ==> head_len(buf@) is None,
{
    let mut i: usize = 0;
    while i < buf.len() && (buf[i] == 13 || buf[i] == 10)
        invariant
            i <= buf@.len(),
            skip_line_breaks(buf@, 0) == skip_line_breaks(buf@, i as nat),
        decreases buf@.len() - i,
    {
        i = i + 1;
    }
    if from > i {
        proof {
            lemma_first_blank_line_skip(buf@, i as nat, from as nat);
        }
        i = from;
    }
    while i < buf.len() && buf.len() - i >= 4
        invariant
            i <= buf@.len(),
            first_blank_line_from(buf@, skip_line_breaks(buf@, 0)) == first_blank_line_from(
                buf@,
                i as nat,
            ),
        decreases buf@.len() - i,
    {
        if buf[i] == 13 && buf[i + 1] == 10 && buf[i + 2] == 13 && buf[i + 3] == 10 {
            return Some(i + 4);
        }
        i = i + 1;
    }
    None
}

/// Finds the length of the request head in `buf`.
pub fn find_head_len(buf: &[u8]) -> (r: Option<usize>)
    ensures
        r matches Some(n) ==> head_len(buf@) == Some(n as nat) && n <= buf@.len(),
        r is None ==> head_len(buf@) is None,
{
    find_head_len_from(buf, 0)
}

/// A position from which to resume the search once `buf`, which holds no
/// closing blank line, has grown.
pub fn resume_point(buf: &[u8]) -> (r: usize)
    requires
        head_len(buf@) is None,
    ensures
        resumable(buf@, r as nat),
{
    let mut i: usize = 0;
    while i < buf.len() && (buf[i] == 13 || buf[i] == 10)
        invariant
            i <= buf@.len(),
            skip_line_breaks(buf@, 0) == skip_line_breaks(buf@, i as nat),
        decreases buf@.len() - i,
    {
        i = i + 1;
    }
    if buf.len() >= 3 && i <= buf.len() - 3 {
        proof {
            lemma_first_blank_line_none(buf@, i as nat);
        }
        buf.len() - 3
    } else {
        0
    }
}

/// Parses a buffer whose head is known to be `n` bytes long.
pub fn parse_head(buf: &[u8], n: usize) -> (r: ParseOutcome)
    requires
        head_len(buf@) == Some(n as nat),
        n <= buf@.len(),
    ensures
        r@ == parse_outcome(buf@),
        r matches ParseOutcome::Parsed(_, off) ==> off <= buf@.len(),
{
    let head = vstd::slice::slice_subrange(buf, 0, n);
    match httparse_head(head) {
        Err(_) => ParseOutcome::Malformed(Malformed::Syntax),
        Ok(None) => ParseOutcome::NeedMoreData,
        Ok(Some(raw)) => {
            let offset = raw.body_offset;
            match interpret_head(raw) {
                Ok(h) => ParseOutcome::Parsed(h, offset),
                Err(e) => ParseOutcome::Malformed(e),
            }
        },
    }
}

/// Parses the bytes received so far for the current request.
pub fn parse_request(buf: &[u8]) -> (r: ParseOutcome)
    ensures
        r@ == parse_outcome(buf@),
        r matches ParseOutcome::Parsed(_, n) ==> n <= buf@.len(),
{
    match find_head_len(buf) {
        None => ParseOutcome::NeedMoreData,
        Some(n) => parse_head(buf, n),
    }
}

/// Where no closing blank line starts in `[a, b)`, the search from `a`
/// finds what the search from `b` finds.
proof fn lemma_first_blank_line_skip(s: Seq<u8>, a: nat, b: nat)
    requires
        a <= b,
        b + 3 <= s.len(),
        forall|j: int| a <= j < b ==> !#[trigger] blank_line_at(s, j),
    ensures
        first_blank_line_from(s, a) == first_blank_line_from(s, b),
    decreases b - a,
{
    if a < b {
        assert(!blank_line_at(s, a as int));
        lemma_first_blank_line_skip(s, a + 1, b);
    }
}

/// Where the search from `i` finds nothing, no closing blank line starts at
/// or after `i`.
proof fn lemma_first_blank_line_none(s: Seq<u8>, i: nat)
    requires
        first_blank_line_from(s, i) is None,
    ensures
        forall|j: int| i <= j ==> !#[trigger] blank_line_at(s, j),
    decreases s.len() - i,
{
    if i + 4 <= s.len() {
        lemma_first_blank_line_none(s, i + 1);
    }
}

proof fn lemma_skip_line_breaks_extend(s: Seq<u8>, t: Seq<u8>, i: nat)
    requires
        skip_line_breaks(s, i) < s.len(),
    ensures
        skip_line_breaks(s + t, i) == skip_line_breaks(s, i),
    decreases s.len() - i,
{
    if i < s.len() && (s[i as int] == 13 || s[i as int] == 10) {
        lemma_skip_line_breaks_extend(s, t, i + 1);
    }
}

/// More bytes keep a resume position valid.
pub proof fn lemma_resumable_extend(s: Seq<u8>, t: Seq<u8>, from: nat)
    requires
        resumable(s, from),
    ensures
        resumable(s + t, from),
{
    if from > 0 {
        lemma_skip_line_breaks_extend(s, t, 0);
        assert forall|j: int| skip_line_breaks(s + t, 0) <= j < from implies !#[trigger] blank_line_at(
            s + t,
            j,
        ) by {
            assert(!blank_line_at(s, j));
        }
    }
}

proof fn lemma_first_blank_line_bounds(s: Seq<u8>, i: nat)
    ensures
        first_blank_line_from(s, i) matches Some(j) ==> i <= j && j + 4 <= s.len(),
    decreases s.len() - i,
{
    if i + 4 <= s.len() && !blank_line_at(s, i as int) {
        lemma_first_blank_line_bounds(s, i + 1);
    }
}

proof fn lemma_first_blank_line_prefix(s: Seq<u8>, k: int, i: nat)
    requires
        0 <= k <= s.len(),
        i <= k,
    ensures
        match first_blank_line_from(s, i) {
            Some(j) => if j + 4 <= k {
                first_blank_line_from(s.subrange(0, k), i) == Some(j)
            } else {
                first_blank_line_from(s.subrange(0, k), i) is None
            },
            None => first_blank_line_from(s.subrange(0, k), i) is None,
        },
    decreases s.len() - i,
{
    let p = s.subrange(0, k);
    if i + 4 <= k {
        assert(blank_line_at(p, i as int) == blank_line_at(s, i as int));
        lemma_first_blank_line_prefix(s, k, i + 1);
    } else {
        lemma_first_blank_line_bounds(s, i);
    }
}

proof fn lemma_skip_line_breaks_prefix(s: Seq<u8>, k: int, i: nat)
    requires
        0 <= k <= s.len(),
        i <= k,
    ensures
        i <= skip_line_breaks(s, i),
        skip_line_breaks(s.subrange(0, k), i) == if skip_line_breaks(s, i) <= k {
            skip_line_breaks(s, i)
        } else {
            k as nat
        },
    decreases s.len() - i,
{
    if i < s.len() && (s[i as int] == 13 || s[i as int] == 10) {
        if i < k {
            lemma_skip_line_breaks_prefix(s, k, i + 1);
        } else {
            lemma_skip_line_breaks_grows(s, i + 1);
        }
    }
}

proof fn lemma_skip_line_breaks_grows(s: Seq<u8>, i: nat)
    ensures
        i <= skip_line_breaks(s, i),
    decreases s.len() - i,
{
    if i < s.len() && (s[i as int] == 13 || s[i as int] == 10) {
        lemma_skip_line_breaks_grows(s, i + 1);
    }
}

/// A prefix of bytes without the head's closing blank line has none either.
pub proof fn lemma_head_len_prefix(s: Seq<u8>, k: int)
    requires
        0 <= k <= s.len(),
        head_len(s) is None,
    ensures
        head_len(s.subrange(0, k)) is None,
{
    lemma_skip_line_breaks_prefix(s, k, 0);
    let st = skip_line_breaks(s, 0);
    if st <= k {
        lemma_first_blank_line_prefix(s, k, st);
    }
}

/// However the bytes of a request are split across reads, parsing the bytes
/// received so far asks for more data until the head's closing blank line
/// has arrived, and from then on gives what parsing all of them gives.
pub proof fn lemma_parse_split_invariant(all: Seq<u8>, k: int)
    requires
        0 <= k <= all.len(),
    ensures
        match head_len(all) {
            Some(n) => if n <= k {
                parse_outcome(all.subrange(0, k)) == parse_outcome(all)
            } else {
                parse_outcome(all.subrange(0, k)) == ParseOutcomeView::NeedMoreData
            },
            None => parse_outcome(all.subrange(0, k)) == ParseOutcomeView::NeedMoreData,
        },
{
    lemma_skip_line_breaks_prefix(all, k, 0);
    let st = skip_line_breaks(all, 0);
    if st <= k {
        lemma_first_blank_line_prefix(all, k, st);
    } else {
        lemma_first_blank_line_bounds(all, st);
    }
    if let Some(n) = head_len(all) {
        if n <= k {
            assert(all.subrange(0, k).subrange(0, n as int) =~= all.subrange(0, n as int));
        }
    }
}

} // verus!
