use akasabi::Param;
use akasabi::Params;
use akasabi::Request;
use akasabi::Response;
use akasabi::http::Connection;
use akasabi::http::Header;
use akasabi::http::PostData;

#[test]
fn params_walk_ampersand_separated_segments() {
    let mut params = Params { query: Some(b"a=1&b=2&c".to_vec()) };
    let p = params.next().unwrap();
    assert_eq!(p.name(), "a");
    assert_eq!(p.value(), "1");
    let p = params.next().unwrap();
    assert_eq!(p.name(), "b");
    assert_eq!(p.value(), "2");
    let p = params.next().unwrap();
    assert_eq!(p.name(), "");
    assert_eq!(p.value(), "c");
    assert!(params.next().is_none());
    assert!(params.next().is_none());
}

#[test]
fn empty_cursor_yields_nothing() {
    let mut params = Params { query: None };
    assert!(params.next().is_none());
}

#[test]
fn param_halves_percent_decode() {
    let p = Param { query: b"x=%E3%81%82".to_vec() };
    assert_eq!(p.name(), "x");
    assert_eq!(p.value(), "あ");
    let plus = Param { query: b"a+b=c+d".to_vec() };
    assert_eq!(plus.name(), "a b");
    assert_eq!(plus.value(), "c d");
}

#[test]
fn invalid_utf8_decodes_to_empty_text() {
    let p = Param { query: b"x=%FF".to_vec() };
    assert_eq!(p.name(), "x");
    assert_eq!(p.value(), "");
}

#[test]
fn get_params_come_from_the_query_string() {
    let req = Request {
        peer_addr: None,
        header: Header { lines: vec![b"GET /path?a=1&b=2 HTTP/1.1".to_vec()] },
        post_data: PostData::Absent,
    };
    let mut params = req.get_params();
    let p = params.next().unwrap();
    assert_eq!((p.name(), p.value()), ("a".to_string(), "1".to_string()));
    let p = params.next().unwrap();
    assert_eq!((p.name(), p.value()), ("b".to_string(), "2".to_string()));
    assert!(params.next().is_none());

    let plain = Request {
        peer_addr: None,
        header: Header { lines: vec![b"GET /path HTTP/1.1".to_vec()] },
        post_data: PostData::Absent,
    };
    assert!(plain.get_params().next().is_none());
}

#[test]
fn post_params_come_from_the_body() {
    let req = Request {
        peer_addr: None,
        header: Header { lines: vec![b"POST / HTTP/1.1".to_vec()] },
        post_data: PostData::Buf(b"hello=world".to_vec()),
    };
    let mut params = req.post_params();
    let p = params.next().unwrap();
    assert_eq!((p.name(), p.value()), ("hello".to_string(), "world".to_string()));
    assert!(params.next().is_none());
}

#[test]
fn response_constructors_default_to_closing_ok() {
    let r = Response::from_str("body");
    assert_eq!(r.content, Some(b"body".to_vec()));
    assert_eq!(r.status, 200);
    assert!(matches!(r.connection, Connection::Close));
    assert!(matches!(r.connection(), Connection::Close));
    let s = Response::from_string("text".to_string());
    assert_eq!(s.content, Some(b"text".to_vec()));
    let n = Response::new(None);
    assert_eq!(n.content, None);
}

#[test]
fn request_getters_expose_the_parts() {
    let req = Request {
        peer_addr: Some("127.0.0.1:9".to_string()),
        header: Header {
            lines: vec![b"POST /p HTTP/1.1".to_vec(), b"Content-Length: 2".to_vec()],
        },
        post_data: PostData::Owned(b"ab".to_vec()),
    };
    assert_eq!(req.peer_addr().unwrap(), "127.0.0.1:9");
    assert_eq!(req.content_length(), Some(2));
    assert_eq!(req.post_data(), Some(&b"ab".to_vec()));
    assert_eq!(req.header().lines.len(), 2);
}
