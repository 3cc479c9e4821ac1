use rtcsms::client;
use rtcsms::{
    read_body, read_length, read_transfer, request_complete, response_complete, write_body, Error,
    ErrorKind, HeaderSet, Protocol, Reader, Request, Response, Verb, URL,
};

fn reader(text: &str) -> Reader {
    Reader::new(text.as_bytes().to_vec())
}

fn pairs(url: &URL) -> Vec<(String, String)> {
    url.args
        .iter()
        .map(|(n, v)| (String::from_utf8(n.clone()).unwrap(), String::from_utf8(v.clone()).unwrap()))
        .collect()
}

#[test]
fn header_set_round_trip() {
    let mut headers = HeaderSet::new();
    headers.add("Host", "example.com");
    headers.add("Accept", "*/*");
    headers.add("X-Note", "a: b");
    let mut out = Vec::new();
    headers.write(&mut out);
    assert_eq!(out, b"Host: example.com\r\nAccept: */*\r\nX-Note: a: b\r\n".to_vec());
    out.extend_from_slice(b"\r\nrest");
    let mut r = Reader::new(out);
    let back = HeaderSet::read(&mut r).unwrap();
    assert_eq!(back.get("Host"), Some(b"example.com".to_vec()));
    assert_eq!(back.get("Accept"), Some(b"*/*".to_vec()));
    assert_eq!(back.get("X-Note"), Some(b"a: b".to_vec()));
    let mut again = Vec::new();
    back.write(&mut again);
    assert_eq!(again, b"Host: example.com\r\nAccept: */*\r\nX-Note: a: b\r\n".to_vec());
    assert_eq!(r.unread(), b"rest".to_vec());
}

#[test]
fn header_read_accepts_bare_line_feeds() {
    let mut r = reader("A: 1\nB: 2\n\nbody");
    let h = HeaderSet::read(&mut r).unwrap();
    assert_eq!(h.get("A"), Some(b"1".to_vec()));
    assert_eq!(h.get("B"), Some(b"2".to_vec()));
    assert_eq!(r.unread(), b"body".to_vec());
}

#[test]
fn header_without_separator_is_a_header_error() {
    let mut r = reader("Host example.com\r\n\r\n");
    let e = HeaderSet::read(&mut r).unwrap_err();
    assert_eq!(e.error_kind(), ErrorKind::Header);
    assert!(matches!(e, Error::Header(_)));
}

#[test]
fn headers_cut_short_are_a_stream_error() {
    let mut r = reader("Host: a\r\n");
    let e = HeaderSet::read(&mut r).unwrap_err();
    assert_eq!(e.error_kind(), ErrorKind::Io);
}

#[test]
fn header_get_returns_first_and_add_default_keeps_it() {
    let mut h = HeaderSet::new();
    h.add("K", "1");
    h.add("K", "2");
    assert_eq!(h.get("K"), Some(b"1".to_vec()));
    assert_eq!(h.get("missing"), None);
    h.add_default("K", "3");
    h.add_default("L", "4");
    let mut out = Vec::new();
    h.write(&mut out);
    assert_eq!(out, b"K: 1\r\nK: 2\r\nL: 4\r\n".to_vec());
}

#[test]
fn url_parse_path_and_args() {
    let url = URL::parse("http://host/a/b?x=1&y").unwrap();
    assert_eq!(url.host, b"host".to_vec());
    assert_eq!(url.port, 80);
    assert_eq!(url.path, b"/a/b".to_vec());
    assert_eq!(url.protocol, Protocol::Http);
    assert_eq!(
        pairs(&url),
        vec![("x".to_string(), "1".to_string()), ("y".to_string(), "".to_string())]
    );
    assert_eq!(url.to_query(), b"/a/b?x=1&y".to_vec());
}

#[test]
fn url_parse_ports() {
    let explicit = URL::parse("https://h:8443/p").unwrap();
    assert_eq!(explicit.port, 8443);
    assert_eq!(explicit.protocol, Protocol::Https);
    let default = URL::parse("https://h/p").unwrap();
    assert_eq!(default.port, 443);
    assert_eq!(default.path, b"/p".to_vec());
    assert_eq!(default.connection(), b"h:443".to_vec());
}

#[test]
fn url_without_path_gets_root() {
    let url = URL::parse("http://example.com").unwrap();
    assert_eq!(url.host, b"example.com".to_vec());
    assert_eq!(url.path, b"/".to_vec());
    assert!(url.args.is_empty());
    assert_eq!(url.connection(), b"example.com:80".to_vec());
}

#[test]
fn url_unsupported_scheme() {
    let e = URL::parse("ftp://host").unwrap_err();
    assert_eq!(e.error_kind(), ErrorKind::Protocol);
    assert!(matches!(e, Error::Protocol));
}

#[test]
fn url_bad_port_and_missing_host() {
    assert_eq!(URL::parse("http://h:port/").unwrap_err().error_kind(), ErrorKind::URL);
    assert_eq!(URL::parse("http://h:99999999999/").unwrap_err().error_kind(), ErrorKind::URL);
    assert_eq!(URL::parse("http").unwrap_err().error_kind(), ErrorKind::URL);
}

#[test]
fn url_query_drops_empty_names_and_splits_on_first_equals() {
    let url = URL::from_request("/p?=skip&a=b=c&&d=");
    assert_eq!(url.path, b"/p".to_vec());
    assert_eq!(
        pairs(&url),
        vec![("a".to_string(), "b=c".to_string()), ("d".to_string(), "".to_string())]
    );
    assert_eq!(url.to_query(), b"/p?a=b=c&d".to_vec());
    assert_eq!(url.host, b"127.0.0.1".to_vec());
    assert_eq!(url.port, 80);
}

#[test]
fn url_empty_target_is_root() {
    let url = URL::from_request("");
    assert_eq!(url.path, b"/".to_vec());
    assert!(url.args.is_empty());
}

#[test]
fn url_get_and_add_arg() {
    let mut url = URL::parse("http://h/?a=1&a=2").unwrap();
    assert_eq!(url.get_arg("a"), Some(&b"1"[..]));
    assert_eq!(url.get_arg("b"), None);
    url.add_arg("b", "x y");
    assert_eq!(url.get_arg("b"), Some(&b"x y"[..]));
    assert_eq!(url.to_query(), b"/?a=1&a=2&b=x y".to_vec());
}

#[test]
fn body_by_length_leaves_the_rest() {
    let mut headers = HeaderSet::new();
    headers.add("Content-Length", "5");
    let mut r = reader("helloXYZ");
    let body = read_body(&headers, &mut r).unwrap();
    assert_eq!(body, b"hello".to_vec());
    assert_eq!(r.unread(), b"XYZ".to_vec());
}

#[test]
fn body_by_length_short_stream() {
    let mut r = reader("abc");
    assert_eq!(read_length(b"10", &mut r).unwrap(), b"abc".to_vec());
    assert_eq!(r.remaining(), 0);
}

#[test]
fn body_bad_length_is_a_header_error() {
    let mut r = reader("abc");
    assert_eq!(read_length(b"ten", &mut r).unwrap_err().error_kind(), ErrorKind::Header);
    assert_eq!(r.unread(), b"abc".to_vec());
}

#[test]
fn body_chunked() {
    let mut headers = HeaderSet::new();
    headers.add("Transfer-Encoding", "chunked");
    let mut r = reader("4\r\nwiki\r\n\r\n");
    assert_eq!(read_body(&headers, &mut r).unwrap(), b"wiki".to_vec());
}

#[test]
fn body_chunked_two_chunks_and_hex() {
    let mut r = reader("4\r\nwiki  a\r\n0123456789\r\nafter");
    assert_eq!(read_transfer(b"chunked", &mut r).unwrap(), b"wiki0123456789".to_vec());
    assert_eq!(r.unread(), b"after".to_vec());
}

#[test]
fn body_chunked_errors() {
    let mut r = reader("zz\r\n");
    assert_eq!(read_transfer(b"chunked", &mut r).unwrap_err().error_kind(), ErrorKind::Header);
    let mut r = reader("4\r\nwiki\r\n\r\n");
    assert_eq!(read_transfer(b"gzip", &mut r).unwrap_err().error_kind(), ErrorKind::Header);
}

#[test]
fn body_length_wins_over_transfer_and_none_is_empty() {
    let mut headers = HeaderSet::new();
    headers.add("Transfer-Encoding", "chunked");
    headers.add("Content-Length", "2");
    let mut r = reader("4\r\nwiki");
    assert_eq!(read_body(&headers, &mut r).unwrap(), b"4\r".to_vec());
    let none = HeaderSet::new();
    let mut r = reader("data");
    assert_eq!(read_body(&none, &mut r).unwrap(), Vec::<u8>::new());
    assert_eq!(r.unread(), b"data".to_vec());
}

#[test]
fn body_write_frames_by_length() {
    let mut out = Vec::new();
    write_body(b"hello", &mut out);
    assert_eq!(out, b"Content-Length: 5\r\n\r\nhello".to_vec());
    let mut out = Vec::new();
    write_body(b"", &mut out);
    assert_eq!(out, b"Content-Length: 0\r\n\r\n".to_vec());
}

#[test]
fn request_round_trip() {
    let url = URL::from_request("/foo?x=1");
    let request = Request::new(Verb::Get, url);
    let mut out = Vec::new();
    request.write(&mut out);
    assert_eq!(out, b"GET /foo?x=1 HTTP/1.1\r\n\r\n".to_vec());
    let back = Request::read(&mut Reader::new(out)).unwrap();
    assert_eq!(back.verb, Verb::Get);
    assert_eq!(back.url.path, b"/foo".to_vec());
    assert_eq!(pairs(&back.url), vec![("x".to_string(), "1".to_string())]);
    assert!(back.body.is_empty());
}

#[test]
fn request_with_body_round_trip() {
    let mut request = Request::new(Verb::Post, URL::from_request("/submit"));
    request.headers.add("X-A", "1");
    request.body = b"payload".to_vec();
    let mut out = Vec::new();
    request.write(&mut out);
    assert_eq!(
        out,
        b"POST /submit HTTP/1.1\r\nX-A: 1\r\nContent-Length: 7\r\n\r\npayload".to_vec()
    );
    let back = Request::read(&mut Reader::new(out)).unwrap();
    assert_eq!(back.verb, Verb::Post);
    assert_eq!(back.body, b"payload".to_vec());
    assert_eq!(back.headers.get("X-A"), Some(b"1".to_vec()));
    assert_eq!(back.body_string(), "payload");
}

#[test]
fn request_line_errors() {
    let kind = |text: &str| Request::read(&mut reader(text)).unwrap_err().error_kind();
    assert_eq!(kind("GET /\r\n\r\n"), ErrorKind::Version);
    assert_eq!(kind("GET / HTTP/1.0\r\n\r\n"), ErrorKind::Version);
    assert_eq!(kind("FETCH / HTTP/1.1\r\n\r\n"), ErrorKind::Verb);
    assert_eq!(kind("GET\r\n\r\n"), ErrorKind::Query);
    assert_eq!(kind(""), ErrorKind::Verb);
}

#[test]
fn verb_tokens() {
    assert_eq!(Verb::parse("DELETE").unwrap(), Verb::Delete);
    assert_eq!(Verb::parse("get").unwrap_err().error_kind(), ErrorKind::Verb);
    assert_eq!(Verb::Options.format(), b"OPTIONS".to_vec());
    assert_eq!(Verb::parse("TRACE").unwrap().format(), b"TRACE".to_vec());
}

#[test]
fn response_read() {
    let mut r = reader("HTTP/1.1 404 Not Found\r\nContent-Length: 3\r\n\r\nabcdef");
    let response = Response::read(&mut r).unwrap();
    assert_eq!(response.code, 404);
    assert_eq!(response.body, b"abc".to_vec());
    assert_eq!(response.headers.get("Content-Length"), Some(b"3".to_vec()));
    assert_eq!(r.unread(), b"def".to_vec());
}

#[test]
fn response_line_errors() {
    let kind = |text: &str| Response::read(&mut reader(text)).unwrap_err().error_kind();
    assert_eq!(kind("HTTP/1.0 200 OK\r\n\r\n"), ErrorKind::Version);
    assert_eq!(kind("HTTP/1.1 OK\r\n\r\n"), ErrorKind::Status);
    assert_eq!(kind("HTTP/1.1\r\n\r\n"), ErrorKind::Status);
}

#[test]
fn response_write_round_trip() {
    let response = Response::new(200, b"hi");
    let mut out = Vec::new();
    response.write(&mut out);
    assert_eq!(out, b"HTTP/1.1 200\r\nContent-Length: 2\r\n\r\nhi".to_vec());
    let back = Response::read(&mut Reader::new(out)).unwrap();
    assert_eq!(back.code, 200);
    assert_eq!(back.body, b"hi".to_vec());
    let empty = Response::new(204, b"");
    let mut out = Vec::new();
    empty.write(&mut out);
    assert_eq!(out, b"HTTP/1.1 204\r\nContent-Length: 0\r\n\r\n".to_vec());
}

#[test]
fn body_string_replaces_invalid_utf8() {
    let response = Response::new(200, &[104, 0xC3, 0xA9, 0xFF]);
    assert_eq!(response.body_string(), "h\u{e9}\u{fffd}");
}

#[test]
fn send_adds_default_headers() {
    let mut request = Request::new(Verb::Get, URL::parse("http://example.com/x").unwrap());
    request.headers.add("Accept", "text/plain");
    let bytes = client::send(&mut request);
    assert_eq!(
        bytes,
        b"GET /x HTTP/1.1\r\nAccept: text/plain\r\nHost: example.com\r\nUser-Agent: rtcsms\r\n\r\n"
            .to_vec()
    );
    assert_eq!(request.headers.get("Host"), Some(b"example.com".to_vec()));
}

#[test]
fn error_constructors() {
    assert!(matches!(Error::header("bad"), Error::Header(m) if m == "bad"));
    assert!(matches!(Error::url("bad"), Error::URL(m) if m == "bad"));
    assert_eq!(Error::io("cut").error_kind(), ErrorKind::Io);
}

#[test]
fn body_errors_leave_the_stream_unread() {
    let mut r = reader("abc");
    assert!(read_length(b"-1", &mut r).is_err());
    assert_eq!(r.unread(), b"abc".to_vec());
    let mut r = reader("4\r\nwiki\r\n\r\n");
    assert!(read_transfer(b"Chunked", &mut r).is_err());
    assert_eq!(r.unread(), b"4\r\nwiki\r\n\r\n".to_vec());
}

#[test]
fn request_arrival() {
    assert!(!request_complete(b""));
    assert!(!request_complete(b"GET / HTTP/1.1"));
    assert!(!request_complete(b"GET / HTTP/1.1\r\nHost: a\r\n"));
    assert!(!request_complete(b"GET / HTTP/1.1\r\nHost: a\r\n\r"));
    assert!(request_complete(b"GET / HTTP/1.1\r\nHost: a\r\n\r\n"));
    assert!(request_complete(b"GET / HTTP/1.0\r\n"));
    assert!(request_complete(b"GET / HTTP/1.1\r\nbroken\r\n\r\n"));
    assert!(!request_complete(b"POST / HTTP/1.1\r\nContent-Length: 5\r\n\r\nhel"));
    assert!(request_complete(b"POST / HTTP/1.1\r\nContent-Length: 5\r\n\r\nhello"));
    assert!(request_complete(b"POST / HTTP/1.1\r\nContent-Length: x\r\n\r\n"));
    assert!(request_complete(b"POST / HTTP/1.1\r\nTransfer-Encoding: gzip\r\n\r\n"));
}

#[test]
fn response_arrival_chunked() {
    let head = "HTTP/1.1 200 OK\r\nTransfer-Encoding: chunked\r\n\r\n";
    assert!(!response_complete(head.as_bytes()));
    assert!(!response_complete(format!("{}4\r\nwi", head).as_bytes()));
    assert!(!response_complete(format!("{}4\r\nwiki", head).as_bytes()));
    assert!(!response_complete(format!("{}4\r\nwiki\r", head).as_bytes()));
    assert!(response_complete(format!("{}4\r\nwiki\r\n", head).as_bytes()));
    assert!(response_complete(format!("{}zz\r\n", head).as_bytes()));
    assert!(response_complete(b"HTTP/1.1 204\r\n\r\n"));
    assert!(response_complete(b"HTTP/2 200\r\n"));
    assert!(!response_complete(b"HTTP/1.1 200\r\nContent-Length: 3\r\n\r\nab"));
}

#[test]
fn error_messages() {
    assert_eq!(Error::Version.message(), "HTTP error: only HTTP/1.1 is supported");
    assert_eq!(Error::header("bad").message(), "HTTP error: invalid header: bad");
    assert_eq!(Error::url("No host").message(), "HTTP error: invalid URL: No host");
    assert_eq!(Error::io("cut").message(), "IO Error: cut");
    assert_eq!(Error::Protocol.message(), "HTTP error: unsupported protocol");
}

#[test]
fn chunked_line_of_unicode_space_ends_the_body() {
    let mut r = Reader::new(vec![0xC2, 0xA0, 0x0A, b'x']);
    assert_eq!(read_transfer(b"chunked", &mut r).unwrap(), Vec::<u8>::new());
    assert_eq!(r.unread(), b"x".to_vec());
    let mut r = reader("\u{3000}4\u{a0}\r\nwiki\u{2028}\r\n");
    assert_eq!(read_transfer(b"chunked", &mut r).unwrap(), b"wiki".to_vec());
    assert!(response_complete(
        "HTTP/1.1 200\r\nTransfer-Encoding: chunked\r\n\r\n\u{a0}\n".as_bytes()
    ));
}

#[test]
fn status_line_split_on_unicode_space() {
    let mut r = reader("\u{a0}HTTP/1.1\u{2003}201\u{a0}Created\r\n\r\n");
    let response = Response::read(&mut r).unwrap();
    assert_eq!(response.code, 201);
}
