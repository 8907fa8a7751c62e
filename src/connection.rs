//! The per-connection state machine. The caller owns the socket and the
//! files: it performs each `Action` and reports what came of it through the
//! matching `on_*` method, which decides the next action.
use vstd::prelude::*;
use crate::bytes::push_all;
use crate::request::{
    find_head_len_from, get_lit, head_len, httparse_request, lemma_head_len_prefix,
    lemma_resumable_extend, parse_head, parse_outcome, post_lit, resumable, resume_point, ParseOutcome,
    ParseOutcomeView, RawHeadView, RequestHeadView,
};
use crate::response::{
    content_type_lit, empty_response, ok_response, octet_stream_lit, response200bin, response201, response404,
    serialize_response, wire,
};
use crate::route::{route, route_request, Route, RouteView};

verus! {

/// The most bytes of a request body asked for in one read.
pub const BODY_CHUNK: usize = 65536;

#[derive(PartialEq, Eq, Structural, Clone, Copy, Debug)]
pub enum Phase {
    /// Reading the head of the next request.
    AwaitingRequest,
    /// Waiting for the contents of a requested file.
    ReadingFile,
    /// Waiting for bytes of a request body to be written to a file.
    StoringFile,
    /// Waiting for bytes of a request body from the peer.
    ReceivingBody,
    /// Waiting for a response to be written to the peer.
    Sending,
    Closed,
}

/// What the caller is to do next.
pub enum Action {
    /// Read more of the request from the peer; report with `on_request_bytes`.
    ReadRequest,
    /// Read the whole file at this path; report with `on_file_read`.
    ReadFile(Vec<u8>),
    /// Create or truncate the file at this path and write these bytes to it;
    /// report with `on_file_written`.
    CreateFile(Vec<u8>, Vec<u8>),
    /// Append these bytes to the file last created; report with
    /// `on_file_written`.
    AppendFile(Vec<u8>),
    /// Read at most this many bytes of the request body from the peer;
    /// report with `on_body_bytes`.
    ReadBody(usize),
    /// Write these bytes to the peer; report with `on_sent`.
    Send(Vec<u8>),
    /// Close the connection.
    Close,
}

pub enum ActionView {
    ReadRequest,
    ReadFile(Seq<u8>),
    CreateFile(Seq<u8>, Seq<u8>),
    AppendFile(Seq<u8>),
    ReadBody(nat),
    Send(Seq<u8>),
    Close,
}

impl View for Action {
    type V = ActionView;

    open spec fn view(&self) -> ActionView {
        match self {
            Action::ReadRequest => ActionView::ReadRequest,
            Action::ReadFile(p) => ActionView::ReadFile(p@),
            Action::CreateFile(p, d) => ActionView::CreateFile(p@, d@),
            Action::AppendFile(d) => ActionView::AppendFile(d@),
            Action::ReadBody(n) => ActionView::ReadBody(*n as nat),
            Action::Send(b) => ActionView::Send(b@),
            Action::Close => ActionView::Close,
        }
    }
}

/// The state of one connection.
pub struct Connection {
    /// The base directory of the files served.
    dir: Vec<u8>,
    /// The bytes of the current request received so far.
    buf: Vec<u8>,
    phase: Phase,
    /// The current request asked for the connection to be closed.
    close_after: bool,
    /// Bytes of the current request body still to be stored.
    remaining: usize,
    /// Where the search for the end of the head resumes when more bytes come.
    scanned: usize,
}

pub struct ConnectionView {
    pub dir: Seq<u8>,
    pub buf: Seq<u8>,
    pub phase: Phase,
    pub close_after: bool,
    pub remaining: nat,
}

impl View for Connection {
    type V = ConnectionView;

    closed spec fn view(&self) -> ConnectionView {
        ConnectionView {
            dir: self.dir@,
            buf: self.buf@,
            phase: self.phase,
            close_after: self.close_after,
            remaining: self.remaining as nat,
        }
    }
}

pub open spec fn min(a: nat, b: nat) -> nat {
    if a <= b {
        a
    } else {
        b
    }
}

pub open spec fn closed(c: ConnectionView) -> ConnectionView {
    ConnectionView { buf: Seq::empty(), phase: Phase::Closed, close_after: false, remaining: 0, ..c }
}

/// Moves to `phase` for a request handled with the given `Connection`
/// choice, and drops the bytes received for it.
pub open spec fn serving(c: ConnectionView, phase: Phase, close: bool, remaining: nat) -> ConnectionView {
    ConnectionView { buf: Seq::empty(), phase, close_after: close, remaining, ..c }
}

/// The step taken for a request whose head has been parsed; `body` is what
/// of its body has already been received.
pub open spec fn dispatch(c: ConnectionView, r: RouteView, close: bool, body: Seq<u8>) -> (
    ConnectionView,
    ActionView,
) {
    match r {
        RouteView::Respond(resp) => (
            serving(c, Phase::Sending, close, 0),
            ActionView::Send(wire(resp)),
        ),
        RouteView::ReadFile(p) => (serving(c, Phase::ReadingFile, close, 0), ActionView::ReadFile(p)),
        RouteView::StoreFile(p, n) => {
            let k = min(n, body.len());
            (
                serving(c, Phase::StoringFile, close, (n - k) as nat),
                ActionView::CreateFile(p, body.subrange(0, k as int)),
            )
        },
    }
}

/// The step taken when bytes of a request head arrive; no bytes means the
/// peer has closed the connection.
pub open spec fn step_request_bytes(c: ConnectionView, chunk: Seq<u8>) -> (ConnectionView, ActionView) {
    if c.phase != Phase::AwaitingRequest || chunk.len() == 0 {
        (closed(c), ActionView::Close)
    } else {
        let buf = c.buf + chunk;
        match parse_outcome(buf) {
            ParseOutcomeView::NeedMoreData => (ConnectionView { buf, ..c }, ActionView::ReadRequest),
            ParseOutcomeView::Malformed(_) => (closed(c), ActionView::Close),
            ParseOutcomeView::Parsed(h, off) => dispatch(
                c,
                route(c.dir, h),
                h.close,
                buf.subrange(off as int, buf.len() as int),
            ),
        }
    }
}

/// The step taken when a requested file has been read, or could not be.
pub open spec fn step_file_read(c: ConnectionView, contents: Option<Seq<u8>>) -> (
    ConnectionView,
    ActionView,
) {
    if c.phase != Phase::ReadingFile {
        (closed(c), ActionView::Close)
    } else {
        (
            ConnectionView { phase: Phase::Sending, ..c },
            ActionView::Send(
                wire(
                    match contents {
                        Some(b) => ok_response(b, octet_stream_lit(), None),
                        None => empty_response(404),
                    },
                ),
            ),
        )
    }
}

/// The step taken when bytes have been written to the file being stored,
/// or could not be.
pub open spec fn step_file_written(c: ConnectionView, ok: bool) -> (ConnectionView, ActionView) {
    if c.phase != Phase::StoringFile || !ok {
        (closed(c), ActionView::Close)
    } else if c.remaining == 0 {
        (ConnectionView { phase: Phase::Sending, ..c }, ActionView::Send(wire(empty_response(201))))
    } else {
        (
            ConnectionView { phase: Phase::ReceivingBody, ..c },
            ActionView::ReadBody(min(c.remaining, BODY_CHUNK as nat)),
        )
    }
}

/// The step taken when bytes of a request body arrive; no bytes before the
/// declared length is reached is an error.
pub open spec fn step_body_bytes(c: ConnectionView, chunk: Seq<u8>) -> (ConnectionView, ActionView) {
    if c.phase != Phase::ReceivingBody || chunk.len() == 0 {
        (closed(c), ActionView::Close)
    } else {
        let k = min(c.remaining, chunk.len());
        (
            ConnectionView { phase: Phase::StoringFile, remaining: (c.remaining - k) as nat, ..c },
            ActionView::AppendFile(chunk.subrange(0, k as int)),
        )
    }
}

/// The step taken when a response has been written, or could not be.
pub open spec fn step_sent(c: ConnectionView, ok: bool) -> (ConnectionView, ActionView) {
    if c.phase != Phase::Sending || !ok || c.close_after {
        (closed(c), ActionView::Close)
    } else {
        (
            ConnectionView { buf: Seq::empty(), phase: Phase::AwaitingRequest, ..c },
            ActionView::ReadRequest,
        )
    }
}

fn prefix_of(s: &[u8], n: usize) -> (r: Vec<u8>)
    requires
        n <= s@.len(),
    ensures
        r@ == s@.subrange(0, n as int),
{
    let mut out: Vec<u8> = Vec::new();
    push_all(&mut out, vstd::slice::slice_subrange(s, 0, n));
    out
}

impl Connection {
    /// The resume position of the head search is valid for the buffer.
    pub closed spec fn wf(&self) -> bool {
        resumable(self.buf@, self.scanned as nat)
    }

    /// A new connection serving files from `dir`, waiting for a request.
    pub fn new(dir: Vec<u8>) -> (c: Connection)
        ensures
            c@ == (ConnectionView {
                dir: dir@,
                buf: Seq::empty(),
                phase: Phase::AwaitingRequest,
                close_after: false,
                remaining: 0,
            }),
            c.wf(),
    {
        let c = Connection {
            dir,
            buf: Vec::new(),
            phase: Phase::AwaitingRequest,
            close_after: false,
            remaining: 0,
            scanned: 0,
        };
        assert(c@.buf =~= Seq::<u8>::empty());
        c
    }

    pub fn phase(&self) -> (p: Phase)
        ensures
            p == self@.phase,
    {
        self.phase
    }

    fn close(&mut self) -> (a: Action)
        requires
            old(self).wf(),
        ensures
            final(self).wf(),
            final(self)@ == closed(old(self)@),
            a@ == ActionView::Close,
    {
        self.scanned = 0;
        self.buf = Vec::new();
        self.phase = Phase::Closed;
        self.close_after = false;
        self.remaining = 0;
        assert(self@.buf =~= Seq::<u8>::empty());
        Action::Close
    }

    fn serve(&mut self, phase: Phase, close: bool, remaining: usize)
        requires
            old(self).wf(),
        ensures
            final(self).wf(),
            final(self)@ == serving(old(self)@, phase, close, remaining as nat),
    {
        self.scanned = 0;
        self.buf = Vec::new();
        self.phase = phase;
        self.close_after = close;
        self.remaining = remaining;
        assert(self@.buf =~= Seq::<u8>::empty());
    }

    /// Handles bytes read from the peer while a request head is awaited.
    pub fn on_request_bytes(&mut self, chunk: &[u8]) -> (a: Action)
        requires
            old(self).wf(),
        ensures
            final(self).wf(),
            (final(self)@, a@) == step_request_bytes(old(self)@, chunk@),
    {
        if self.phase != Phase::AwaitingRequest || chunk.len() == 0 {
            return self.close();
        }
        proof {
            lemma_resumable_extend(self.buf@, chunk@, self.scanned as nat);
        }
        push_all(&mut self.buf, chunk);
        let n = match find_head_len_from(self.buf.as_slice(), self.scanned) {
            None => {
                self.scanned = resume_point(self.buf.as_slice());
                return Action::ReadRequest;
            },
            Some(n) => n,
        };
        match parse_head(self.buf.as_slice(), n) {
            ParseOutcome::NeedMoreData => Action::ReadRequest,
            ParseOutcome::Malformed(_) => self.close(),
            ParseOutcome::Parsed(head, off) => {
                let close = head.close;
                let body = vstd::slice::slice_subrange(self.buf.as_slice(), off, self.buf.len());
                match route_request(&self.dir, head) {
                    Route::Respond(resp) => {
                        let bytes = serialize_response(&resp);
                        self.serve(Phase::Sending, close, 0);
                        Action::Send(bytes)
                    },
                    Route::ReadFile(p) => {
                        self.serve(Phase::ReadingFile, close, 0);
                        Action::ReadFile(p)
                    },
                    Route::StoreFile(p, n) => {
                        let k: usize = if n <= body.len() {
                            n
                        } else {
                            body.len()
                        };
                        let first = prefix_of(body, k);
                        self.serve(Phase::StoringFile, close, n - k);
                        Action::CreateFile(p, first)
                    },
                }
            },
        }
    }

    /// Handles the contents of the requested file, or `None` where it could
    /// not be read.
    pub fn on_file_read(&mut self, contents: Option<Vec<u8>>) -> (a: Action)
        requires
            old(self).wf(),
        ensures
            final(self).wf(),
            (final(self)@, a@) == step_file_read(
                old(self)@,
                match contents {
                    Some(b) => Some(b@),
                    None => None,
                },
            ),
    {
        if self.phase != Phase::ReadingFile {
            return self.close();
        }
        let resp = match contents {
            Some(b) => response200bin(b),
            None => response404(),
        };
        self.phase = Phase::Sending;
        Action::Send(serialize_response(&resp))
    }

    /// Handles the outcome of creating or appending to the file being stored.
    pub fn on_file_written(&mut self, ok: bool) -> (a: Action)
        requires
            old(self).wf(),
        ensures
            final(self).wf(),
            (final(self)@, a@) == step_file_written(old(self)@, ok),
    {
        if self.phase != Phase::StoringFile || !ok {
            return self.close();
        }
        if self.remaining == 0 {
            self.phase = Phase::Sending;
            Action::Send(serialize_response(&response201()))
        } else {
            self.phase = Phase::ReceivingBody;
            let n: usize = if self.remaining <= BODY_CHUNK {
                self.remaining
            } else {
                BODY_CHUNK
            };
            Action::ReadBody(n)
        }
    }

    /// Handles bytes of the request body read from the peer.
    pub fn on_body_bytes(&mut self, chunk: &[u8]) -> (a: Action)
        requires
            old(self).wf(),
        ensures
            final(self).wf(),
            (final(self)@, a@) == step_body_bytes(old(self)@, chunk@),
    {
        if self.phase != Phase::ReceivingBody || chunk.len() == 0 {
            return self.close();
        }
        let k: usize = if self.remaining <= chunk.len() {
            self.remaining
        } else {
            chunk.len()
        };
        self.remaining = self.remaining - k;
        self.phase = Phase::StoringFile;
        Action::AppendFile(prefix_of(chunk, k))
    }

    /// Handles the outcome of writing a response to the peer.
    pub fn on_sent(&mut self, ok: bool) -> (a: Action)
        requires
            old(self).wf(),
        ensures
            final(self).wf(),
            (final(self)@, a@) == step_sent(old(self)@, ok),
    {
        if self.phase != Phase::Sending || !ok || self.close_after {
            return self.close();
        }
        self.scanned = 0;
        self.buf = Vec::new();
        self.phase = Phase::AwaitingRequest;
        assert(self@.buf =~= Seq::<u8>::empty());
        Action::ReadRequest
    }

    /// Handles a failed read from the peer: the connection is closed.
    pub fn on_read_error(&mut self) -> (a: Action)
        requires
            old(self).wf(),
        ensures
            final(self).wf(),
            final(self)@ == closed(old(self)@),
            a@ == ActionView::Close,
    {
        self.close()
    }
}

/// A request that asks for `Connection: close` has the connection closed
/// right after its response is written; any other request leaves it open,
/// reading the next request into an empty buffer.
pub proof fn lemma_close_after_response(
    c: ConnectionView,
    chunk: Seq<u8>,
    h: RequestHeadView,
    off: nat,
    contents: Option<Seq<u8>>,
)
    requires
        c.phase == Phase::AwaitingRequest,
        chunk.len() > 0,
        parse_outcome(c.buf + chunk) == ParseOutcomeView::Parsed(h, off),
        !(route(c.dir, h) is StoreFile),
    ensures
        ({
            let (c1, a1) = step_request_bytes(c, chunk);
            let c2 = if route(c.dir, h) is ReadFile {
                step_file_read(c1, contents).0
            } else {
                c1
            };
            let (c3, a3) = step_sent(c2, true);
            &&& c2.phase == Phase::Sending
            &&& h.close ==> a3 == ActionView::Close && c3.phase == Phase::Closed
            &&& !h.close ==> a3 == ActionView::ReadRequest && c3.phase == Phase::AwaitingRequest
                && c3.buf.len() == 0
        }),
{
}

/// A request whose method is neither `GET` nor `POST` closes the connection
/// without a byte sent back.
pub proof fn lemma_unsupported_method_closes(
    c: ConnectionView,
    chunk: Seq<u8>,
    n: nat,
    raw: RawHeadView,
    m: Seq<u8>,
)
    requires
        c.phase == Phase::AwaitingRequest,
        chunk.len() > 0,
        head_len(c.buf + chunk) == Some(n),
        httparse_request((c.buf + chunk).subrange(0, n as int)) == Some(Some(raw)),
        raw.method == Some(m),
        m != get_lit(),
        m != post_lit(),
    ensures
        step_request_bytes(c, chunk) == (closed(c), ActionView::Close),
{
}

/// A file that was read is sent as `200` with its contents as an
/// `application/octet-stream` body; one that could not be read gives `404`
/// with an empty body.
pub proof fn lemma_file_read_response(c: ConnectionView, contents: Option<Seq<u8>>)
    requires
        c.phase == Phase::ReadingFile,
    ensures
        match contents {
            Some(b) => step_file_read(c, contents).1 == ActionView::Send(
                wire(ok_response(b, octet_stream_lit(), None)),
            ) && ok_response(b, octet_stream_lit(), None).status == 200
                && ok_response(b, octet_stream_lit(), None).body == b
                && ok_response(b, octet_stream_lit(), None).headers[1] == (
                content_type_lit(),
                octet_stream_lit(),
            ),
            None => step_file_read(c, contents).1 == ActionView::Send(wire(empty_response(404)))
                && empty_response(404).body.len() == 0,
        },
{
}

/// The chunks joined end to end.
pub open spec fn concat(chunks: Seq<Seq<u8>>) -> Seq<u8>
    decreases chunks.len(),
{
    if chunks.len() == 0 {
        Seq::empty()
    } else {
        chunks[0] + concat(chunks.drop_first())
    }
}

/// Storing a body once the file has been created: every write succeeds and
/// the peer sends `chunks` in turn. Gives the state reached, the last action
/// and the bytes appended to the file.
pub open spec fn store_run(c: ConnectionView, chunks: Seq<Seq<u8>>) -> (
    ConnectionView,
    ActionView,
    Seq<u8>,
)
    decreases chunks.len(),
{
    let (c1, a1) = step_file_written(c, true);
    if chunks.len() == 0 || !(a1 is ReadBody) {
        (c1, a1, Seq::empty())
    } else {
        let (c2, a2) = step_body_bytes(c1, chunks[0]);
        match a2 {
            ActionView::AppendFile(d) => {
                let (c3, a3, rest) = store_run(c2, chunks.drop_first());
                (c3, a3, d + rest)
            },
            _ => (c2, a2, Seq::empty()),
        }
    }
}

/// While a body is stored, exactly the declared number of bytes still owed
/// is appended to the file, in the order received, and then `201` is sent.
pub proof fn lemma_store_body(c: ConnectionView, chunks: Seq<Seq<u8>>)
    requires
        c.phase == Phase::StoringFile,
        forall|i: int| 0 <= i < chunks.len() ==> (#[trigger] chunks[i]).len() > 0,
        concat(chunks).len() >= c.remaining,
    ensures
        store_run(c, chunks).1 == ActionView::Send(wire(empty_response(201))),
        store_run(c, chunks).2 == concat(chunks).subrange(0, c.remaining as int),
    decreases chunks.len(),
{
    if c.remaining == 0 {
        assert(concat(chunks).subrange(0, 0) =~= Seq::<u8>::empty());
    } else {
        let (c1, a1) = step_file_written(c, true);
        let ch = chunks[0];
        let rest = chunks.drop_first();
        let (c2, a2) = step_body_bytes(c1, ch);
        let k = min(c.remaining, ch.len());
        assert(forall|i: int| 0 <= i < rest.len() ==> rest[i] == chunks[i + 1]);
        lemma_store_body(c2, rest);
        assert(concat(chunks) == ch + concat(rest));
        if k == ch.len() {
            assert(ch.subrange(0, k as int) + concat(rest).subrange(0, c.remaining - k)
                =~= concat(chunks).subrange(0, c.remaining as int));
        } else {
            assert(ch.subrange(0, k as int) + concat(rest).subrange(0, 0)
                =~= concat(chunks).subrange(0, c.remaining as int));
        }
    }
}

/// A `POST` that stores its body: what is written to the file (the part of
/// the body that came with the head, then what the peer sends in turn) is
/// exactly the first `Content-Length` bytes of the body, and `201` follows.
pub proof fn lemma_post_writes_body(
    c: ConnectionView,
    chunk: Seq<u8>,
    h: RequestHeadView,
    off: nat,
    chunks: Seq<Seq<u8>>,
)
    requires
        c.phase == Phase::AwaitingRequest,
        chunk.len() > 0,
        parse_outcome(c.buf + chunk) == ParseOutcomeView::Parsed(h, off),
        off <= (c.buf + chunk).len(),
        route(c.dir, h) is StoreFile,
        forall|i: int| 0 <= i < chunks.len() ==> (#[trigger] chunks[i]).len() > 0,
        ((c.buf + chunk).subrange(off as int, (c.buf + chunk).len() as int) + concat(chunks)).len()
            >= h.content_length,
    ensures
        ({
            let buf = c.buf + chunk;
            let body = buf.subrange(off as int, buf.len() as int) + concat(chunks);
            let (c1, a1) = step_request_bytes(c, chunk);
            &&& a1 is CreateFile
            &&& a1->1 + store_run(c1, chunks).2 == body.subrange(0, h.content_length as int)
            &&& store_run(c1, chunks).1 == ActionView::Send(wire(empty_response(201)))
        }),
{
    let buf = c.buf + chunk;
    let head_body = buf.subrange(off as int, buf.len() as int);
    let body = head_body + concat(chunks);
    let n = h.content_length;
    let (c1, a1) = step_request_bytes(c, chunk);
    assert(route(c.dir, h)->1 == n);
    let k = min(n, head_body.len());
    lemma_store_body(c1, chunks);
    if k == n {
        assert(head_body.subrange(0, k as int) + concat(chunks).subrange(0, 0) =~= body.subrange(
            0,
            n as int,
        ));
    } else {
        assert(head_body.subrange(0, k as int) + concat(chunks).subrange(0, n - k)
            =~= body.subrange(0, n as int));
    }
}

/// Feeds the chunks of a request head in turn, for as long as more data is
/// asked for, and gives the state and action reached.
pub open spec fn feed(c: ConnectionView, chunks: Seq<Seq<u8>>) -> (ConnectionView, ActionView)
    decreases chunks.len(),
{
    if chunks.len() == 0 {
        (c, ActionView::ReadRequest)
    } else {
        let (c1, a1) = step_request_bytes(c, chunks[0]);
        if chunks.len() == 1 || a1 != ActionView::ReadRequest {
            (c1, a1)
        } else {
            feed(c1, chunks.drop_first())
        }
    }
}

/// However a request is split into reads, the last of which completes its
/// head, the connection takes the same step as when all of it comes in one
/// read.
pub proof fn lemma_split_reads(c: ConnectionView, chunks: Seq<Seq<u8>>)
    requires
        c.phase == Phase::AwaitingRequest,
        chunks.len() >= 1,
        forall|i: int| 0 <= i < chunks.len() ==> (#[trigger] chunks[i]).len() > 0,
        head_len(c.buf + concat(chunks.drop_last())) is None,
    ensures
        feed(c, chunks) == step_request_bytes(c, concat(chunks)),
    decreases chunks.len(),
{
    let ch = chunks[0];
    let rest = chunks.drop_first();
    assert(concat(chunks) == ch + concat(rest));
    if chunks.len() == 1 {
        assert(concat(rest) =~= Seq::<u8>::empty());
        assert(ch + concat(rest) =~= ch);
    } else {
        assert(chunks.drop_last().drop_first() =~= rest.drop_last());
        assert(concat(chunks.drop_last()) == ch + concat(rest.drop_last()));
        let whole = c.buf + concat(chunks.drop_last());
        assert(whole.subrange(0, (c.buf + ch).len() as int) =~= c.buf + ch);
        lemma_head_len_prefix(whole, (c.buf + ch).len() as int);
        let (c1, a1) = step_request_bytes(c, ch);
        assert(a1 == ActionView::ReadRequest);
        assert(c1.buf + concat(rest.drop_last()) =~= whole);
        assert(forall|i: int| 0 <= i < rest.len() ==> rest[i] == chunks[i + 1]);
        lemma_split_reads(c1, rest);
        assert(c1.buf + concat(rest) =~= c.buf + concat(chunks));
        assert(concat(rest).len() >= rest[0].len());
        assert(closed(c1) == closed(c));
    }
}

} // verus!
