use hyper::error::Error;
use hyper::head::{HttpVersion, MessageHead, RawStatus};
use hyper::headers::Headers;
use hyper::encoder::Encoder;
use hyper::parse::parse_response;
use hyper::response::{Response, Serializer};
use hyper::transaction::ServerTransaction;

const DATE: &[u8] = b"Sun, 06 Nov 1994 08:49:37 GMT";

#[test]
fn content_length_body_is_not_chunked() {
    let res = Response::new()
        .header(b"Content-Length".to_vec(), b"5".to_vec())
        .body(b"hello".to_vec());
    let mut out = Vec::new();
    assert_eq!(Serializer.serialize_with_date(res, DATE, &mut out), Ok(()));
    let expect = b"HTTP/1.1 200 OK\r\nContent-Length: 5\r\nDate: Sun, 06 Nov 1994 08:49:37 GMT\r\n\r\nhello";
    assert_eq!(out, expect.to_vec());
}

#[test]
fn body_without_length_is_chunked() {
    let res = Response::new().body(b"Wiki".to_vec());
    let mut out = Vec::new();
    assert_eq!(Serializer.serialize_with_date(res, DATE, &mut out), Ok(()));
    let expect = b"HTTP/1.1 200 OK\r\nDate: Sun, 06 Nov 1994 08:49:37 GMT\r\nTransfer-Encoding: chunked\r\n\r\n4\r\nWiki\r\n0\r\n\r\n";
    assert_eq!(out, expect.to_vec());
}

#[test]
fn response_without_body_declares_zero_length() {
    let res = Response::new().header(b"Date".to_vec(), b"today".to_vec());
    let mut out = Vec::new();
    assert_eq!(Serializer.serialize_with_date(res, DATE, &mut out), Ok(()));
    assert_eq!(out, b"HTTP/1.1 200 OK\r\nDate: today\r\nContent-Length: 0\r\n\r\n".to_vec());
}

#[test]
fn declared_length_must_match_body() {
    let res = Response::new()
        .header(b"Content-Length".to_vec(), b"3".to_vec())
        .body(b"hello".to_vec());
    let mut out = b"keep".to_vec();
    assert_eq!(Serializer.serialize_with_date(res, DATE, &mut out), Err(Error::BodyLengthMismatch));
    assert_eq!(out, b"keep".to_vec());
}

#[test]
fn serializer_dates_the_response() {
    let res = Response::new().body(b"x".to_vec());
    let mut out = Vec::new();
    assert_eq!(Serializer.serialize(res, &mut out), Ok(()));
    let (head, n) = parse_response(&out).unwrap().unwrap();
    assert_eq!(head.headers.name_at(0), b"Date");
    let date = head.headers.value_at(0);
    assert!(date.ends_with(b"GMT"));
    assert_eq!(date.len(), DATE.len());
    assert_eq!(&out[n..], b"1\r\nx\r\n0\r\n\r\n");
}

#[test]
fn server_encode_appends_chunked_coding() {
    let mut h = Headers::new();
    h.append(b"Transfer-Encoding".to_vec(), b"gzip".to_vec());
    let mut head = MessageHead::new(HttpVersion::Http10, RawStatus::new(201, b"Created".to_vec()), h);
    let mut out = Vec::new();
    let enc = ServerTransaction::encode(&mut head, DATE, &mut out);
    assert_eq!(enc, Ok(Encoder::chunked()));
    let expect = b"HTTP/1.0 201 Created\r\nTransfer-Encoding: gzip, chunked\r\nDate: Sun, 06 Nov 1994 08:49:37 GMT\r\n\r\n";
    assert_eq!(out, expect.to_vec());
}

#[test]
fn unreadable_length_is_refused() {
    let res = Response::new()
        .header(b"Content-Length".to_vec(), b"abc".to_vec())
        .body(b"hello".to_vec());
    let mut out = b"keep".to_vec();
    assert_eq!(Serializer.serialize_with_date(res, DATE, &mut out), Err(Error::ConflictingContentLength));
    assert_eq!(out, b"keep".to_vec());
}

#[test]
fn repeated_length_is_refused_by_encode() {
    let mut h = Headers::new();
    h.append(b"Content-Length".to_vec(), b"1".to_vec());
    h.append(b"Content-Length".to_vec(), b"1".to_vec());
    let mut head = MessageHead::new(HttpVersion::Http11, RawStatus::new(200, b"OK".to_vec()), h);
    let mut out = Vec::new();
    assert_eq!(ServerTransaction::encode(&mut head, DATE, &mut out), Err(Error::ConflictingContentLength));
    assert!(out.is_empty());
    assert_eq!(head.headers.len(), 2);
}

#[test]
fn serialized_head_parses_back_with_framing_fields() {
    let res = Response::new()
        .header(b"X-A".to_vec(), b"1".to_vec())
        .header(b"X-B".to_vec(), b"two words".to_vec())
        .body(b"abc".to_vec());
    let mut out = Vec::new();
    assert_eq!(Serializer.serialize_with_date(res, DATE, &mut out), Ok(()));
    let (head, n) = parse_response(&out).unwrap().unwrap();
    assert_eq!(head.version, HttpVersion::Http11);
    assert_eq!(head.subject.0, 200);
    let names: Vec<&[u8]> = (0..head.headers.len()).map(|i| head.headers.name_at(i)).collect();
    assert_eq!(names, vec![&b"X-A"[..], b"X-B", b"Date", b"Transfer-Encoding"]);
    assert_eq!(head.headers.value_at(1), b"two words");
    assert_eq!(&out[n..], b"3\r\nabc\r\n0\r\n\r\n");
}

#[test]
fn misplaced_chunked_is_refused_by_server_encode() {
    let mut h = Headers::new();
    h.append(b"Transfer-Encoding".to_vec(), b"chunked, gzip".to_vec());
    let mut head = MessageHead::new(HttpVersion::Http11, RawStatus::new(200, b"OK".to_vec()), h);
    let mut out = Vec::new();
    assert_eq!(ServerTransaction::encode(&mut head, DATE, &mut out), Err(Error::InvalidChunkFraming));
    assert!(out.is_empty());
    assert_eq!(head.headers.len(), 1);
}

#[test]
fn added_date_has_http_date_form() {
    let res = Response::new().body(b"x".to_vec());
    let mut out = Vec::new();
    assert_eq!(Serializer.serialize(res, &mut out), Ok(()));
    let (head, _) = parse_response(&out).unwrap().unwrap();
    let d = head.headers.value_at(0);
    let days: [&[u8]; 7] = [b"Sun", b"Mon", b"Tue", b"Wed", b"Thu", b"Fri", b"Sat"];
    assert!(days.contains(&&d[0..3]));
    assert_eq!(&d[3..5], b", ");
    assert!(d[5].is_ascii_digit() && d[6].is_ascii_digit());
    let n = d.len();
    assert_eq!(d[n - 10], b':');
    assert_eq!(d[n - 7], b':');
    assert_eq!(&d[n - 4..], b" GMT");
}
