//! Routing: what the server does for each request.
use vstd::prelude::*;
use crate::bytes::{decimal, eq_ignore_case, eq_ignore_case_at, lower, push_all, starts_with_ignore_case};
use crate::request::content_length_lit;
use crate::request::{Method, RequestHead, RequestHeadView};
use crate::response::{
    empty_response, ok_response, octet_stream_lit, response200pt, response404, text_plain_lit,
    Response, ResponseView,
};

verus! {

pub open spec fn root_lit() -> Seq<u8> {
    seq![47u8]
}

/// The bytes of `/`.
pub(crate) fn root_bytes() -> (r: Vec<u8>)
    ensures
        r@ == root_lit(),
{
    vec![47u8]
}

pub open spec fn echo_prefix_lit() -> Seq<u8> {
    seq![47u8, 101, 99, 104, 111, 47]
}

/// The bytes of `/echo/`.
pub(crate) fn echo_prefix_bytes() -> (r: Vec<u8>)
    ensures
        r@ == echo_prefix_lit(),
{
    vec![47u8, 101, 99, 104, 111, 47]
}

pub open spec fn user_agent_path_lit() -> Seq<u8> {
    seq![47u8, 117, 115, 101, 114, 45, 97, 103, 101, 110, 116]
}

/// The bytes of `/user-agent`.
pub(crate) fn user_agent_path_bytes() -> (r: Vec<u8>)
    ensures
        r@ == user_agent_path_lit(),
{
    vec![47u8, 117, 115, 101, 114, 45, 97, 103, 101, 110, 116]
}

pub open spec fn files_prefix_lit() -> Seq<u8> {
    seq![47u8, 102, 105, 108, 101, 115, 47]
}

/// The bytes of `/files/`.
pub(crate) fn files_prefix_bytes() -> (r: Vec<u8>)
    ensures
        r@ == files_prefix_lit(),
{
    vec![47u8, 102, 105, 108, 101, 115, 47]
}

/// What the server does for a request.
pub enum Route {
    /// Send this response.
    Respond(Response),
    /// Send the contents of the file at this path, or 404 if it cannot be read.
    ReadFile(Vec<u8>),
    /// Store the request body, of the given length, in the file at this path.
    StoreFile(Vec<u8>, usize),
}

pub enum RouteView {
    Respond(ResponseView),
    ReadFile(Seq<u8>),
    StoreFile(Seq<u8>, nat),
}

impl View for Route {
    type V = RouteView;

    open spec fn view(&self) -> RouteView {
        match self {
            Route::Respond(r) => RouteView::Respond(r@),
            Route::ReadFile(p) => RouteView::ReadFile(p@),
            Route::StoreFile(p, n) => RouteView::StoreFile(p@, *n as nat),
        }
    }
}

/// The path of the file that `/files/<name>` names: the base directory
/// followed by `/<name>`.
pub open spec fn file_path(dir: Seq<u8>, path: Seq<u8>) -> Seq<u8> {
    dir + path.subrange(6, path.len() as int)
}

/// The routing rules. Prefixes are matched up to ASCII case; what follows
/// them is taken as sent.
pub open spec fn route(dir: Seq<u8>, h: RequestHeadView) -> RouteView {
    match h.method {
        Method::Get => if h.path == root_lit() {
            RouteView::Respond(ok_response(Seq::empty(), text_plain_lit(), h.encoding))
        } else if starts_with_ignore_case(h.path, echo_prefix_lit()) {
            RouteView::Respond(
                ok_response(h.path.subrange(6, h.path.len() as int), text_plain_lit(), h.encoding),
            )
        } else if eq_ignore_case(h.path, user_agent_path_lit()) {
            RouteView::Respond(
                ok_response(
                    match h.user_agent {
                        Some(ua) => ua,
                        None => Seq::empty(),
                    },
                    text_plain_lit(),
                    h.encoding,
                ),
            )
        } else if starts_with_ignore_case(h.path, files_prefix_lit()) {
            RouteView::ReadFile(file_path(dir, h.path))
        } else {
            RouteView::Respond(empty_response(404))
        },
        Method::Post => if starts_with_ignore_case(h.path, files_prefix_lit()) {
            RouteView::StoreFile(file_path(dir, h.path), h.content_length)
        } else {
            RouteView::Respond(empty_response(404))
        },
    }
}

fn has_prefix_ignore_case(s: &Vec<u8>, p: &Vec<u8>) -> (r: bool)
    ensures
        r == starts_with_ignore_case(s@, p@),
{
    if p.len() > s.len() {
        return false;
    }
    eq_ignore_case_at(s.as_slice(), 0, p.as_slice())
}

fn tail_from(s: &Vec<u8>, start: usize) -> (r: Vec<u8>)
    requires
        start <= s@.len(),
    ensures
        r@ == s@.subrange(start as int, s@.len() as int),
{
    let mut out: Vec<u8> = Vec::new();
    push_all(&mut out, vstd::slice::slice_subrange(s.as_slice(), start, s.len()));
    assert(out@ =~= s@.subrange(start as int, s@.len() as int));
    out
}

fn file_path_exec(dir: &Vec<u8>, path: &Vec<u8>) -> (r: Vec<u8>)
    requires
        6 <= path@.len(),
    ensures
        r@ == file_path(dir@, path@),
{
    let mut out: Vec<u8> = Vec::new();
    push_all(&mut out, dir.as_slice());
    push_all(&mut out, vstd::slice::slice_subrange(path.as_slice(), 6, path.len()));
    assert(out@ =~= file_path(dir@, path@));
    out
}

/// Decides what to do for a request, given the base directory for files.
pub fn route_request(dir: &Vec<u8>, head: RequestHead) -> (r: Route)
    ensures
        r@ == route(dir@, head@),
{
    let files = files_prefix_bytes();
    match head.method {
        Method::Get => {
            let root = root_bytes();
            let echo = echo_prefix_bytes();
            let ua_path = user_agent_path_bytes();
            if head.path.len() == 1 && head.path[0] == 47 {
                assert(head.path@ =~= root_lit());
                Route::Respond(response200pt(Vec::new(), head.encoding))
            } else if has_prefix_ignore_case(&head.path, &echo) {
                Route::Respond(response200pt(tail_from(&head.path, 6), head.encoding))
            } else if head.path.len() == ua_path.len() && eq_ignore_case_at(
                head.path.as_slice(),
                0,
                ua_path.as_slice(),
            ) {
                assert(head.path@.subrange(0, ua_path@.len() as int) =~= head.path@);
                let body = match head.user_agent {
                    Some(ua) => ua,
                    None => Vec::new(),
                };
                Route::Respond(response200pt(body, head.encoding))
            } else if has_prefix_ignore_case(&head.path, &files) {
                Route::ReadFile(file_path_exec(dir, &head.path))
            } else {
                proof {
                    if head.path@ == root_lit() {
                        assert(head.path@.len() == 1 && head.path@[0] == 47);
                    }
                    if eq_ignore_case(head.path@, user_agent_path_lit()) {
                        assert(head.path@.subrange(0, ua_path@.len() as int) =~= head.path@);
                    }
                }
                Route::Respond(response404())
            }
        },
        Method::Post => {
            if has_prefix_ignore_case(&head.path, &files) {
                Route::StoreFile(file_path_exec(dir, &head.path), head.content_length)
            } else {
                Route::Respond(response404())
            }
        },
    }
}

/// `GET /` is answered `200` with an empty body and `content-length: 0`.
pub proof fn lemma_root_is_empty_ok(dir: Seq<u8>, h: RequestHeadView)
    requires
        h.method == Method::Get,
        h.path == root_lit(),
    ensures
        route(dir, h) matches RouteView::Respond(r) && r.status == 200 && r.body.len() == 0
            && r.headers[0] == (content_length_lit(), seq![48u8]),
{
    assert(decimal(0) == seq![48u8]);
}

/// `GET /echo/<s>` is answered `200` with exactly the bytes of `<s>` as body.
pub proof fn lemma_echo_body(dir: Seq<u8>, h: RequestHeadView, s: Seq<u8>)
    requires
        h.method == Method::Get,
        h.path == echo_prefix_lit() + s,
    ensures
        route(dir, h) matches RouteView::Respond(r) && r.status == 200 && r.body == s,
{
    assert(h.path.subrange(0, 6) =~= echo_prefix_lit());
    assert(h.path.subrange(6, h.path.len() as int) =~= s);
    assert(h.path.len() != root_lit().len());
}

/// `GET /user-agent` is answered `200` with the `User-Agent` value as body,
/// or an empty body when the request had none.
pub proof fn lemma_user_agent_body(dir: Seq<u8>, h: RequestHeadView)
    requires
        h.method == Method::Get,
        h.path == user_agent_path_lit(),
    ensures
        route(dir, h) matches RouteView::Respond(r) && r.status == 200 && r.body == match h.user_agent {
            Some(ua) => ua,
            None => Seq::empty(),
        },
{
    assert(h.path.len() != root_lit().len());
    assert(!starts_with_ignore_case(h.path, echo_prefix_lit())) by {
        assert(h.path.subrange(0, 6)[1] == h.path[1]);
        assert(lower(h.path[1]) != lower(echo_prefix_lit()[1]));
    }
}

/// `GET /files/<name>` reads the file `<name>` in the base directory, and
/// `POST /files/<name>` stores the body, of its declared length, there.
pub proof fn lemma_files_path(dir: Seq<u8>, h: RequestHeadView, name: Seq<u8>)
    requires
        h.path == files_prefix_lit() + name,
    ensures
        h.method == Method::Get ==> route(dir, h) == RouteView::ReadFile(dir + seq![47u8] + name),
        h.method == Method::Post ==> route(dir, h) == RouteView::StoreFile(
            dir + seq![47u8] + name,
            h.content_length,
        ),
{
    assert(h.path.subrange(0, 7) =~= files_prefix_lit());
    assert(h.path.subrange(6, h.path.len() as int) =~= seq![47u8] + name);
    assert(h.path.len() != root_lit().len());
    assert(!starts_with_ignore_case(h.path, echo_prefix_lit())) by {
        assert(h.path.subrange(0, 6)[1] == h.path[1]);
        assert(lower(h.path[1]) != lower(echo_prefix_lit()[1]));
    }
    assert(!eq_ignore_case(h.path, user_agent_path_lit())) by {
        assert(lower(h.path[1]) != lower(user_agent_path_lit()[1]));
    }
    assert(file_path(dir, h.path) =~= dir + seq![47u8] + name);
    assert(starts_with_ignore_case(h.path, files_prefix_lit()));
}

} // verus!
