use akasabi::Handler;
use akasabi::Request;
use akasabi::Response;
use akasabi::http::Connection;
use akasabi::http::Header;
use akasabi::http::HttpDate;
use akasabi::http::HttpHandler;
use akasabi::http::Method;
use akasabi::http::PostData;
use akasabi::http::Protocol;
use akasabi::http::Step;
use akasabi::http::error_response;
use akasabi::http::format_date_line;
use akasabi::http::serialize_response;
use akasabi::http::trim;
use akasabi::http::BUFFER_SIZE;
use akasabi::http::MAX_POST_SIZE;

fn header_of(lines: &[&[u8]]) -> Header {
    Header { lines: lines.iter().map(|l| l.to_vec()).collect() }
}

fn contains(haystack: &[u8], needle: &[u8]) -> bool {
    haystack.windows(needle.len()).any(|w| w == needle)
}

#[test]
fn request_line_parses_into_its_parts() {
    let h = header_of(&[b"GET /path?a=1&b=2 HTTP/1.1"]);
    assert_eq!(h.method(), Some(Method::GET));
    assert_eq!(h.protocol(), Some(Protocol::Http11));
    assert_eq!(h.path(), Some(&b"/path?a=1&b=2"[..]));
}

#[test]
fn request_line_tokens_are_case_insensitive() {
    let h = header_of(&[b"get / http/1.0"]);
    assert_eq!(h.method(), Some(Method::GET));
    assert_eq!(h.protocol(), Some(Protocol::Http10));
}

#[test]
fn unrecognized_tokens_parse_to_nothing() {
    let h = header_of(&[b"PUT /x HTTP/0.9"]);
    assert_eq!(h.method(), None);
    assert_eq!(h.protocol(), None);
    let bare = header_of(&[b"GET"]);
    assert_eq!(bare.method(), None);
    assert_eq!(bare.path(), None);
}

#[test]
fn path_needs_two_spaces_with_something_between() {
    let h = header_of(&[b"GET  HTTP/1.1"]);
    assert_eq!(h.path(), None);
}

#[test]
fn connection_directive_is_case_insensitive() {
    let a = header_of(&[b"GET / HTTP/1.1", b"Connection: KEEP-ALIVE"]);
    assert_eq!(a.connection(), Some(Connection::KeepAlive));
    let b = header_of(&[b"GET / HTTP/1.1", b"connection:keep-alive"]);
    assert_eq!(b.connection(), Some(Connection::KeepAlive));
    let c = header_of(&[b"GET / HTTP/1.1", b"Connection:  keep-alive  "]);
    assert_eq!(c.connection(), Some(Connection::KeepAlive));
    let d = header_of(&[b"GET / HTTP/1.1", b"CONNECTION: Close"]);
    assert_eq!(d.connection(), Some(Connection::Close));
    let e = header_of(&[b"GET / HTTP/1.1", b"Connection: upgrade"]);
    assert_eq!(e.connection(), None);
    let f = header_of(&[b"GET / HTTP/1.1"]);
    assert_eq!(f.connection(), None);
}

#[test]
fn content_length_reads_digits_leniently() {
    let h = header_of(&[b"POST / HTTP/1.1", b"Content-Length: 11"]);
    assert_eq!(h.content_length(), Some(11));
    let lenient = header_of(&[b"POST / HTTP/1.1", b"content-length: 4 2"]);
    assert_eq!(lenient.content_length(), Some(42));
    let missing = header_of(&[b"POST / HTTP/1.1"]);
    assert_eq!(missing.content_length(), None);
    let empty = header_of(&[b"POST / HTTP/1.1", b"Content-Length:"]);
    assert_eq!(empty.content_length(), Some(0));
    let no_digits = header_of(&[b"POST / HTTP/1.1", b"Content-Length: abc"]);
    assert_eq!(no_digits.content_length(), Some(0));
}

#[test]
fn get_string_takes_the_first_match_and_trims() {
    let h = header_of(&[b"GET / HTTP/1.1", b"X-One:  a  ", b"x-one: b"]);
    assert_eq!(h.get_string(b"X-One"), Some(&b"a"[..]));
    assert_eq!(h.get_string(b"X-Two"), None);
}

#[test]
fn trim_strips_spaces_but_keeps_all_space_values() {
    assert_eq!(trim(b"  x y  "), b"x y");
    assert_eq!(trim(b"xy"), b"xy");
    assert_eq!(trim(b"   "), b"   ");
    assert_eq!(trim(b""), b"");
}

#[test]
fn date_line_has_the_fixed_layout() {
    let d = HttpDate { wday: 0, mday: 5, mon: 1, year: 2026, hour: 4, min: 5, sec: 6 };
    let mut out: Vec<u8> = Vec::new();
    format_date_line(&mut out, &d);
    assert_eq!(out, b"Date: Sun, 5 Jan 2026 04:05:06 GMT\r\n".to_vec());
    let d2 = HttpDate { wday: 6, mday: 31, mon: 12, year: 1999, hour: 23, min: 59, sec: 59 };
    let mut out2: Vec<u8> = Vec::new();
    format_date_line(&mut out2, &d2);
    assert_eq!(out2, b"Date: Sat, 31 Dec 1999 23:59:59 GMT\r\n".to_vec());
}

#[test]
fn serialized_response_is_exact() {
    let d = HttpDate { wday: 1, mday: 2, mon: 3, year: 2026, hour: 10, min: 20, sec: 30 };
    let bytes = serialize_response(
        Some(Protocol::Http11),
        200,
        &Some(b"hi".to_vec()),
        Connection::KeepAlive,
        &d,
    );
    assert_eq!(
        bytes,
        b"HTTP/1.1 200 OK\r\nDate: Mon, 2 Mar 2026 10:20:30 GMT\r\nServer: Akasabi 0.1.0\r\n\
          Content-Type: text/html; charset=UTF-8\r\nContent-Length: 2\r\n\
          Connection: keep-alive\r\n\r\nhi"
            .to_vec()
    );
}

#[test]
fn serialized_error_status_and_bodyless_form() {
    let d = HttpDate { wday: 1, mday: 2, mon: 3, year: 2026, hour: 10, min: 20, sec: 30 };
    let bytes = serialize_response(Some(Protocol::Http10), 404, &None, Connection::Close, &d);
    assert_eq!(
        bytes,
        b"HTTP/1.0 500 Internal Server Error\r\nDate: Mon, 2 Mar 2026 10:20:30 GMT\r\n\
          Server: Akasabi 0.1.0\r\nConnection: close\r\n\r\n"
            .to_vec()
    );
}

#[test]
fn error_response_is_the_fixed_reply() {
    assert_eq!(error_response(), b"HTTP/1.1 501 Not Implemented\r\n\r\n".to_vec());
}

struct Echo;

impl Handler for Echo {
    fn handle(&self, req: &Request) -> Response {
        let mut body = b"ok:".to_vec();
        if let Some(data) = req.post_data() {
            body.extend_from_slice(data);
        }
        Response::new(Some(body))
    }
}

#[test]
fn unrecognized_protocol_gets_the_fixed_reply() {
    let mut machine = HttpHandler::new(Echo);
    machine.start(None);
    match machine.advance(b"GET /x HTTP/0.9\r\n\r\n") {
        Step::Send(bytes, close) => {
            assert_eq!(bytes, b"HTTP/1.1 501 Not Implemented\r\n\r\n".to_vec());
            assert!(close);
        }
        _ => panic!("expected a reply"),
    }
}

#[test]
fn post_body_reaches_the_handler() {
    let mut machine = HttpHandler::new(Echo);
    machine.start(None);
    let req = match machine.advance(b"POST / HTTP/1.1\r\nContent-Length: 11\r\n\r\nhello=world") {
        Step::Dispatch(req) => req,
        _ => panic!("expected a dispatch"),
    };
    assert_eq!(req.post_data(), Some(&b"hello=world".to_vec()));
    assert_eq!(req.content_length(), Some(11));
    let mut params = req.post_params();
    let p = params.next().unwrap();
    assert_eq!((p.name(), p.value()), ("hello".to_string(), "world".to_string()));
    assert!(params.next().is_none());
    let resp = machine.handler.handle(&req);
    assert_eq!(resp.content, Some(b"ok:hello=world".to_vec()));
    match machine.respond(&resp) {
        Step::Send(bytes, close) => {
            assert!(bytes.starts_with(b"HTTP/1.1 200 OK\r\nDate: "));
            assert!(bytes.ends_with(b"\r\n\r\nok:hello=world"));
            assert!(close);
        }
        _ => panic!("expected a reply"),
    }
}

#[test]
fn request_split_over_chunks_waits_for_data() {
    let mut machine = HttpHandler::new(Echo);
    machine.start(None);
    assert!(matches!(machine.advance(b"POST / HT"), Step::NeedData));
    assert!(matches!(machine.advance(b"TP/1.1\r\nContent-Length: 5\r\n\r\nab"), Step::NeedData));
    let req = match machine.advance(b"cde") {
        Step::Dispatch(req) => req,
        _ => panic!("expected a dispatch"),
    };
    assert_eq!(req.post_data(), Some(&b"abcde".to_vec()));
    match machine.respond(&Response::from_str("done")) {
        Step::Send(_, close) => assert!(close),
        _ => panic!("expected a reply"),
    }
}

#[test]
fn closing_before_a_request_line_sends_nothing() {
    let mut machine = HttpHandler::new(Echo);
    machine.start(None);
    assert!(matches!(machine.advance(b""), Step::Close));
    let mut partial = HttpHandler::new(Echo);
    partial.start(None);
    assert!(matches!(partial.advance(b"GET / HT"), Step::NeedData));
    assert!(matches!(partial.advance(b""), Step::Close));
}

#[test]
fn post_without_length_gets_the_fixed_reply() {
    let mut machine = HttpHandler::new(Echo);
    machine.start(None);
    match machine.advance(b"POST / HTTP/1.1\r\n\r\n") {
        Step::Send(bytes, close) => {
            assert_eq!(bytes, b"HTTP/1.1 501 Not Implemented\r\n\r\n".to_vec());
            assert!(close);
        }
        _ => panic!("expected a reply"),
    }
}

fn post_with_body_of(len: usize) -> Vec<u8> {
    let mut req = format!("POST / HTTP/1.1\r\nContent-Length: {}\r\n\r\n", len).into_bytes();
    req.extend(std::iter::repeat(b'x').take(len));
    req
}

#[test]
fn body_tier_boundary() {
    // a body of exactly the buffer size stays on the fixed-buffer path
    let mut small = HttpHandler::new(Echo);
    small.start(None);
    match small.advance(&post_with_body_of(BUFFER_SIZE)) {
        Step::Dispatch(req) => {
            assert!(matches!(req.post_data, PostData::Buf(_)));
            assert_eq!(req.post_data().unwrap().len(), BUFFER_SIZE);
        }
        _ => panic!("expected a dispatch"),
    }

    // one byte more moves to the growable-buffer path
    let mut large = HttpHandler::new(Echo);
    large.start(None);
    match large.advance(&post_with_body_of(BUFFER_SIZE + 1)) {
        Step::Dispatch(req) => {
            assert!(matches!(req.post_data, PostData::Owned(_)));
            assert_eq!(req.post_data().unwrap().len(), BUFFER_SIZE + 1);
        }
        _ => panic!("expected a dispatch"),
    }

    // one byte over the absolute cap fails the connection
    let mut huge = HttpHandler::new(Echo);
    huge.start(None);
    match huge.advance(
        format!("POST / HTTP/1.1\r\nContent-Length: {}\r\n\r\n", MAX_POST_SIZE + 1).as_bytes(),
    ) {
        Step::Send(bytes, close) => {
            assert_eq!(bytes, b"HTTP/1.1 501 Not Implemented\r\n\r\n".to_vec());
            assert!(close);
        }
        _ => panic!("expected a reply"),
    }
}

fn exchange(machine: &mut HttpHandler<Echo>, request: &[u8], directive: Connection) -> (Vec<u8>, bool) {
    let req = match machine.advance(request) {
        Step::Dispatch(req) => req,
        _ => panic!("expected a dispatch"),
    };
    let mut resp = machine.handler.handle(&req);
    resp.connection = directive;
    match machine.respond(&resp) {
        Step::Send(bytes, close) => (bytes, close),
        _ => panic!("expected a reply"),
    }
}

#[test]
fn keep_alive_serves_sequential_requests() {
    let mut machine = HttpHandler::new(Echo);
    machine.start(None);
    let (bytes, close) = exchange(
        &mut machine,
        b"GET /a HTTP/1.1\r\nConnection: keep-alive\r\n\r\n",
        Connection::KeepAlive,
    );
    assert!(bytes.starts_with(b"HTTP/1.1 200 OK\r\n"));
    assert!(contains(&bytes, b"\r\nConnection: keep-alive\r\n"));
    assert!(!close);
    let (_, close) = exchange(&mut machine, b"GET /b HTTP/1.1\r\n\r\n", Connection::KeepAlive);
    assert!(!close);
    let (bytes, close) = exchange(
        &mut machine,
        b"GET /c HTTP/1.1\r\nConnection: close\r\n\r\n",
        Connection::Close,
    );
    assert!(contains(&bytes, b"\r\nConnection: close\r\n"));
    assert!(close);
}

#[test]
fn response_mirrors_the_request_protocol() {
    let mut machine = HttpHandler::new(Echo);
    machine.start(None);
    match machine.advance(b"GET / HTTP/1.0\r\n\r\n") {
        Step::Dispatch(req) => match machine.respond(&machine.handler.handle(&req)) {
            Step::Send(bytes, _) => assert!(bytes.starts_with(b"HTTP/1.0 200 OK\r\n")),
            _ => panic!("expected a reply"),
        },
        _ => panic!("expected a dispatch"),
    }
}

#[test]
fn overlong_header_line_fails_the_connection() {
    let mut machine = HttpHandler::new(Echo);
    machine.start(None);
    let long = vec![b'a'; BUFFER_SIZE + 1];
    match machine.advance(&long) {
        Step::Send(bytes, close) => {
            assert_eq!(bytes, b"HTTP/1.1 501 Not Implemented\r\n\r\n".to_vec());
            assert!(close);
        }
        _ => panic!("expected a reply"),
    }
}
