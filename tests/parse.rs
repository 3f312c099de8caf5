use hyper::error::Error;
use hyper::head::{encode_request_head, encode_response_head, HttpVersion, MessageHead, RawStatus, RequestLine};
use hyper::headers::Headers;
use hyper::parse::{parse_request, parse_response};
use hyper::transaction::{ClientTransaction, Http1Transaction, ServerTransaction};

fn fields(h: &Headers) -> Vec<(Vec<u8>, Vec<u8>)> {
    (0..h.len()).map(|i| (h.name_at(i).to_vec(), h.value_at(i).to_vec())).collect()
}

#[test]
fn parses_request_head() {
    let msg = b"GET /index.html HTTP/1.1\r\nHost: example.com\r\nAccept:   */*  \r\n\r\nBODY";
    let (head, n) = parse_request(msg).unwrap().unwrap();
    assert_eq!(n, msg.len() - 4);
    assert_eq!(head.version, HttpVersion::Http11);
    assert_eq!(head.subject.0, b"GET".to_vec());
    assert_eq!(head.subject.1, b"/index.html".to_vec());
    assert_eq!(
        fields(&head.headers),
        vec![
            (b"Host".to_vec(), b"example.com".to_vec()),
            (b"Accept".to_vec(), b"*/*".to_vec())
        ]
    );
}

#[test]
fn parses_response_head() {
    let msg = b"HTTP/1.0 404 Not Found\r\nContent-Length: 3\r\n\r\n";
    let (head, n) = ClientTransaction::parse(msg).unwrap().unwrap();
    assert_eq!(n, msg.len());
    assert_eq!(head.version, HttpVersion::Http10);
    assert_eq!(head.subject.0, 404);
    assert_eq!(head.subject.1, b"Not Found".to_vec());
    let (h2, _) = parse_response(b"HTTP/1.1 204\r\n\r\n").unwrap().unwrap();
    assert_eq!(h2.subject.0, 204);
    assert!(h2.subject.1.is_empty());
}

#[test]
fn truncated_head_needs_more_input() {
    let msg = b"GET / HTTP/1.1\r\nHost: x\r\n\r\n";
    for k in 0..msg.len() {
        assert!(parse_request(&msg[..k]).unwrap().is_none(), "prefix {}", k);
    }
    assert!(parse_request(msg).unwrap().is_some());
}

#[test]
fn malformed_heads_are_errors() {
    assert_eq!(parse_request(b"GET / HTTP/2.0\r\n\r\n").err(), Some(Error::MalformedStartLine));
    assert_eq!(parse_request(b"GET /\r\n\r\n").err(), Some(Error::MalformedStartLine));
    assert_eq!(parse_request(b"GET / HTTP/1.1\nHost: x\r\n\r\n").err(), Some(Error::MalformedStartLine));
    assert_eq!(parse_request(b"GET / HTTP/1.1\r\nNoColon\r\n\r\n").err(), Some(Error::MalformedHeader));
    assert_eq!(
        parse_request(b"GET / HTTP/1.1\r\nA: b\r\n  folded\r\n\r\n").err(),
        Some(Error::MalformedHeader)
    );
    assert_eq!(parse_request(b"GET / HTTP/1.1\r\nA: b\rx\r\n\r\n").err(), Some(Error::MalformedHeader));
    assert_eq!(parse_response(b"HTTP/1.1 2000 OK\r\n\r\n").err(), Some(Error::MalformedStartLine));
    assert_eq!(parse_response(b"HTTP/1.1 099 OK\r\n\r\n").err(), Some(Error::MalformedStartLine));
    assert_eq!(ServerTransaction::parse(b"G@T / HTTP/1.1\r\n: v\r\n\r\n").err(), Some(Error::MalformedHeader));
}

#[test]
fn request_round_trip() {
    let mut headers = Headers::new();
    headers.append(b"Host".to_vec(), b"example.com".to_vec());
    headers.append(b"X-Empty".to_vec(), b"".to_vec());
    headers.append(b"host".to_vec(), b"a b\tc".to_vec());
    let head = MessageHead::new(
        HttpVersion::Http10,
        RequestLine::new(b"POST".to_vec(), b"/a?b=c".to_vec()),
        headers,
    );
    let mut wire = Vec::new();
    encode_request_head(&head, &mut wire);
    assert_eq!(
        wire,
        b"POST /a?b=c HTTP/1.0\r\nHost: example.com\r\nX-Empty: \r\nhost: a b\tc\r\n\r\n".to_vec()
    );
    let n = wire.len();
    wire.extend_from_slice(b"trailing");
    let (back, m) = parse_request(&wire).unwrap().unwrap();
    assert_eq!(m, n);
    assert_eq!(back.version, head.version);
    assert_eq!(back.subject.0, head.subject.0);
    assert_eq!(back.subject.1, head.subject.1);
    assert_eq!(fields(&back.headers), fields(&head.headers));
}

#[test]
fn response_round_trip() {
    let mut headers = Headers::new();
    headers.append(b"Server".to_vec(), b"wire".to_vec());
    let head = MessageHead::new(HttpVersion::Http11, RawStatus::new(503, b"Service Unavailable".to_vec()), headers);
    let mut wire = Vec::new();
    encode_response_head(&head, &mut wire);
    assert_eq!(wire, b"HTTP/1.1 503 Service Unavailable\r\nServer: wire\r\n\r\n".to_vec());
    let (back, m) = parse_response(&wire).unwrap().unwrap();
    assert_eq!(m, wire.len());
    assert_eq!(back.subject.0, 503);
    assert_eq!(back.subject.1, head.subject.1);
    assert_eq!(fields(&back.headers), fields(&head.headers));
}

#[test]
fn raw_status_default_is_ok() {
    let s = RawStatus::default();
    assert_eq!(s.0, 200);
    assert_eq!(s.1, b"OK".to_vec());
}

#[test]
fn generic_parse_follows_the_role() {
    let (req, n) = hyper::transaction::parse::<ServerTransaction>(b"GET / HTTP/1.0\r\n\r\n").unwrap().unwrap();
    assert_eq!(n, 18);
    assert_eq!(req.version, HttpVersion::Http10);
    let (res, m) = hyper::transaction::parse::<ClientTransaction>(b"HTTP/1.1 200 OK\r\n\r\nx").unwrap().unwrap();
    assert_eq!(m, 19);
    assert_eq!(res.subject.0, 200);
}
