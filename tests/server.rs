use basic_http_server::bytes::{parse_usize_exec, push_decimal};
use basic_http_server::connection::{Action, Connection, Phase};
use basic_http_server::request::{parse_encoding, parse_request, Encoding, Malformed, Method, ParseOutcome};
use basic_http_server::response::{response404, serialize_response};

fn dir() -> Vec<u8> {
    b"/srv".to_vec()
}

fn sent(a: Action) -> Vec<u8> {
    match a {
        Action::Send(b) => b,
        _ => panic!("expected a response to send"),
    }
}

fn respond(req: &[u8]) -> Vec<u8> {
    let mut c = Connection::new(dir());
    sent(c.on_request_bytes(req))
}

fn text(b: &[u8]) -> String {
    String::from_utf8(b.to_vec()).unwrap()
}

#[test]
fn parses_complete_get_head() {
    let buf = b"GET /echo/abc HTTP/1.1\r\nHost: x\r\nUser-Agent: foo/1.0\r\nConnection: Close\r\n\r\nrest";
    match parse_request(buf) {
        ParseOutcome::Parsed(h, off) => {
            assert_eq!(h.method, Method::Get);
            assert_eq!(h.path, b"/echo/abc".to_vec());
            assert!(h.close);
            assert_eq!(h.user_agent, Some(b"foo/1.0".to_vec()));
            assert_eq!(h.encoding, None);
            assert_eq!(off, buf.len() - 4);
        },
        _ => panic!("expected a parsed head"),
    }
}

#[test]
fn incomplete_head_needs_more_data() {
    assert!(matches!(parse_request(b"GET / HTTP/1.1\r\nHost: x\r\n"), ParseOutcome::NeedMoreData));
    assert!(matches!(parse_request(b""), ParseOutcome::NeedMoreData));
}

#[test]
fn split_request_parses_as_whole() {
    let req = b"GET /echo/split HTTP/1.1\r\nHost: x\r\nAccept-Encoding: gzip\r\n\r\n";
    let whole = respond(req);
    for size in 1..req.len() {
        let mut c = Connection::new(dir());
        let mut out = None;
        for chunk in req.chunks(size) {
            match c.on_request_bytes(chunk) {
                Action::ReadRequest => {},
                Action::Send(b) => out = Some(b),
                _ => panic!("unexpected action"),
            }
        }
        assert_eq!(out, Some(whole.clone()));
    }
}

#[test]
fn root_is_empty_ok() {
    assert_eq!(
        text(&respond(b"GET / HTTP/1.1\r\n\r\n")),
        "HTTP/1.1 200 OK\r\ncontent-length: 0\r\ncontent-type: text/plain\r\n\r\n"
    );
}

#[test]
fn echo_returns_rest_of_path() {
    assert_eq!(
        text(&respond(b"GET /echo/abc HTTP/1.1\r\n\r\n")),
        "HTTP/1.1 200 OK\r\ncontent-length: 3\r\ncontent-type: text/plain\r\n\r\nabc"
    );
    assert!(text(&respond(b"GET /ECHO/a/b HTTP/1.1\r\n\r\n")).ends_with("\r\n\r\na/b"));
}

#[test]
fn echo_with_gzip_adds_encoding_header() {
    assert_eq!(
        text(&respond(b"GET /echo/hi HTTP/1.1\r\nAccept-Encoding: deflate, GZip\r\n\r\n")),
        "HTTP/1.1 200 OK\r\ncontent-length: 2\r\ncontent-type: text/plain\r\ncontent-encoding: gzip\r\n\r\nhi"
    );
}

#[test]
fn user_agent_is_reflected() {
    assert!(text(&respond(b"GET /user-agent HTTP/1.1\r\nUser-Agent: foo/1.0\r\n\r\n"))
        .ends_with("content-length: 7\r\ncontent-type: text/plain\r\n\r\nfoo/1.0"));
    assert!(text(&respond(b"GET /user-agent HTTP/1.1\r\n\r\n"))
        .ends_with("content-length: 0\r\ncontent-type: text/plain\r\n\r\n"));
}

#[test]
fn last_user_agent_wins() {
    assert!(text(&respond(b"GET /user-agent HTTP/1.1\r\nuser-agent: a\r\nUSER-AGENT: bb\r\n\r\n"))
        .ends_with("\r\n\r\nbb"));
}

#[test]
fn unknown_path_is_not_found() {
    assert_eq!(
        text(&respond(b"GET /nothing HTTP/1.1\r\n\r\n")),
        "HTTP/1.1 404 Not Found\r\ncontent-length: 0\r\n\r\n"
    );
    assert!(text(&respond(b"POST /other HTTP/1.1\r\nContent-Length: 0\r\n\r\n")).starts_with("HTTP/1.1 404"));
}

#[test]
fn file_read_found_and_missing() {
    let mut c = Connection::new(dir());
    match c.on_request_bytes(b"GET /files/foo.txt HTTP/1.1\r\n\r\n") {
        Action::ReadFile(p) => assert_eq!(p, b"/srv/foo.txt".to_vec()),
        _ => panic!("expected a file read"),
    }
    assert_eq!(
        text(&sent(c.on_file_read(Some(b"hello".to_vec())))),
        "HTTP/1.1 200 OK\r\ncontent-length: 5\r\ncontent-type: application/octet-stream\r\n\r\nhello"
    );
    let mut c = Connection::new(dir());
    c.on_request_bytes(b"GET /files/missing HTTP/1.1\r\n\r\n");
    assert_eq!(text(&sent(c.on_file_read(None))), "HTTP/1.1 404 Not Found\r\ncontent-length: 0\r\n\r\n");
}

#[test]
fn post_stores_declared_length() {
    let mut c = Connection::new(dir());
    match c.on_request_bytes(b"POST /files/up HTTP/1.1\r\nContent-Length: 10\r\n\r\n12345") {
        Action::CreateFile(p, d) => {
            assert_eq!(p, b"/srv/up".to_vec());
            assert_eq!(d, b"12345".to_vec());
        },
        _ => panic!("expected the file to be created"),
    }
    assert!(matches!(c.on_file_written(true), Action::ReadBody(5)));
    match c.on_body_bytes(b"678") {
        Action::AppendFile(d) => assert_eq!(d, b"678".to_vec()),
        _ => panic!("expected an append"),
    }
    assert!(matches!(c.on_file_written(true), Action::ReadBody(2)));
    match c.on_body_bytes(b"90XYZ") {
        Action::AppendFile(d) => assert_eq!(d, b"90".to_vec()),
        _ => panic!("expected an append"),
    }
    assert_eq!(text(&sent(c.on_file_written(true))), "HTTP/1.1 201 Created\r\ncontent-length: 0\r\n\r\n");
}

#[test]
fn post_prefix_longer_than_body_is_cut() {
    let mut c = Connection::new(dir());
    match c.on_request_bytes(b"POST /files/up HTTP/1.1\r\nContent-Length: 3\r\n\r\nabcdef") {
        Action::CreateFile(_, d) => assert_eq!(d, b"abc".to_vec()),
        _ => panic!("expected the file to be created"),
    }
    assert!(matches!(c.on_file_written(true), Action::Send(_)));
}

#[test]
fn large_body_is_read_in_bounded_chunks() {
    let mut c = Connection::new(dir());
    c.on_request_bytes(b"POST /files/big HTTP/1.1\r\nContent-Length: 100000\r\n\r\n");
    assert!(matches!(c.on_file_written(true), Action::ReadBody(65536)));
}

#[test]
fn short_body_read_closes() {
    let mut c = Connection::new(dir());
    c.on_request_bytes(b"POST /files/up HTTP/1.1\r\nContent-Length: 4\r\n\r\n");
    c.on_file_written(true);
    assert!(matches!(c.on_body_bytes(b""), Action::Close));
    assert_eq!(c.phase(), Phase::Closed);
}

#[test]
fn failed_file_write_closes() {
    let mut c = Connection::new(dir());
    c.on_request_bytes(b"POST /files/up HTTP/1.1\r\nContent-Length: 4\r\n\r\nab");
    assert!(matches!(c.on_file_written(false), Action::Close));
}

#[test]
fn connection_close_ends_after_response() {
    let mut c = Connection::new(dir());
    sent(c.on_request_bytes(b"GET / HTTP/1.1\r\nConnection: close\r\n\r\n"));
    assert!(matches!(c.on_sent(true), Action::Close));
    assert_eq!(c.phase(), Phase::Closed);
}

#[test]
fn keep_alive_answers_second_request() {
    let mut c = Connection::new(dir());
    sent(c.on_request_bytes(b"GET / HTTP/1.1\r\n\r\n"));
    assert!(matches!(c.on_sent(true), Action::ReadRequest));
    assert!(text(&sent(c.on_request_bytes(b"GET /echo/again HTTP/1.1\r\n\r\n"))).ends_with("again"));
}

#[test]
fn failed_write_closes() {
    let mut c = Connection::new(dir());
    sent(c.on_request_bytes(b"GET / HTTP/1.1\r\n\r\n"));
    assert!(matches!(c.on_sent(false), Action::Close));
}

#[test]
fn unsupported_method_closes_silently() {
    let mut c = Connection::new(dir());
    assert!(matches!(c.on_request_bytes(b"DELETE / HTTP/1.1\r\n\r\n"), Action::Close));
    assert!(matches!(parse_request(b"DELETE / HTTP/1.1\r\n\r\n"), ParseOutcome::Malformed(Malformed::UnsupportedMethod)));
}

#[test]
fn syntax_error_is_malformed() {
    assert!(matches!(parse_request(b"GET / HTTP/9\r\n\r\n"), ParseOutcome::Malformed(Malformed::Syntax)));
    let mut c = Connection::new(dir());
    assert!(matches!(c.on_request_bytes(b"G@T / HTTP/1.1\r\n\r\n"), Action::Close));
}

#[test]
fn bad_content_length_is_malformed() {
    assert!(matches!(
        parse_request(b"POST /files/a HTTP/1.1\r\nContent-Length: ten\r\n\r\n"),
        ParseOutcome::Malformed(Malformed::BadHeader)
    ));
}

#[test]
fn non_utf8_user_agent_is_malformed() {
    assert!(matches!(
        parse_request(b"GET / HTTP/1.1\r\nUser-Agent: \xff\xfe\r\n\r\n"),
        ParseOutcome::Malformed(Malformed::BadHeader)
    ));
}

#[test]
fn peer_close_closes() {
    let mut c = Connection::new(dir());
    assert!(matches!(c.on_request_bytes(b""), Action::Close));
    let mut c = Connection::new(dir());
    assert!(matches!(c.on_read_error(), Action::Close));
}

#[test]
fn usize_parsing() {
    assert_eq!(parse_usize_exec(b"42"), Some(42));
    assert_eq!(parse_usize_exec(b"+7"), Some(7));
    assert_eq!(parse_usize_exec(b"0"), Some(0));
    assert_eq!(parse_usize_exec(b""), None);
    assert_eq!(parse_usize_exec(b"+"), None);
    assert_eq!(parse_usize_exec(b"-1"), None);
    assert_eq!(parse_usize_exec(b"1 "), None);
    assert_eq!(parse_usize_exec(b"99999999999999999999999"), None);
    assert_eq!(parse_usize_exec(usize::MAX.to_string().as_bytes()), Some(usize::MAX));
}

#[test]
fn decimal_formatting() {
    let mut v = b"n=".to_vec();
    push_decimal(&mut v, 1207);
    assert_eq!(v, b"n=1207".to_vec());
    let mut z = Vec::new();
    push_decimal(&mut z, 0);
    assert_eq!(z, b"0".to_vec());
}

#[test]
fn encoding_detection() {
    assert_eq!(parse_encoding(b"GZIP"), Some(Encoding::Gzip));
    assert_eq!(parse_encoding(b"br, x-gzip;q=0.5"), Some(Encoding::Gzip));
    assert_eq!(parse_encoding(b"deflate"), None);
    assert_eq!(parse_encoding(b""), None);
}

#[test]
fn not_found_wire_form() {
    assert_eq!(text(&serialize_response(&response404())), "HTTP/1.1 404 Not Found\r\ncontent-length: 0\r\n\r\n");
}

#[test]
fn leading_blank_lines_are_skipped() {
    assert!(matches!(parse_request(b"\r\n\r\n"), ParseOutcome::NeedMoreData));
    assert!(text(&respond(b"\r\n\r\nGET /echo/x HTTP/1.1\r\n\r\n")).ends_with("\r\n\r\nx"));
}
