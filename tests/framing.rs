use hyper::decoder::{ChunkedState, Decoder};
use hyper::encoder::Encoder;
use hyper::error::Error;
use hyper::head::{HttpVersion, MessageHead, RawStatus, RequestLine};
use hyper::headers::Headers;
use hyper::transaction::{ClientTransaction, Http1Transaction, ServerTransaction};

fn request(method: &[u8], fields: &[(&[u8], &[u8])]) -> MessageHead<RequestLine> {
    let mut h = Headers::new();
    for (n, v) in fields {
        h.append(n.to_vec(), v.to_vec());
    }
    MessageHead::new(HttpVersion::Http11, RequestLine::new(method.to_vec(), b"/".to_vec()), h)
}

fn response(code: u16, version: HttpVersion, fields: &[(&[u8], &[u8])]) -> MessageHead<RawStatus> {
    let mut h = Headers::new();
    for (n, v) in fields {
        h.append(n.to_vec(), v.to_vec());
    }
    MessageHead::new(version, RawStatus::new(code, b"X".to_vec()), h)
}

#[test]
fn chunked_decoder_yields_wiki() {
    let mut d = Decoder::chunked();
    let mut body = Vec::new();
    let input = b"4\r\nWiki\r\n0\r\n\r\n";
    assert_eq!(d.decode(input, &mut body), Ok(input.len()));
    assert_eq!(body, b"Wiki".to_vec());
    assert!(d.is_eof());
    assert_eq!(d, Decoder::Chunked(ChunkedState::Done));
}

#[test]
fn chunked_decoder_cut_off_needs_more() {
    let mut d = Decoder::chunked();
    let mut body = Vec::new();
    assert_eq!(d.decode(b"4\r\nWik", &mut body), Ok(6));
    assert!(!d.is_eof());
    assert_eq!(body, b"Wik".to_vec());
    assert_eq!(d.decode(b"i\r\n0\r\n\r\nNEXT", &mut body), Ok(8));
    assert!(d.is_eof());
    assert_eq!(body, b"Wiki".to_vec());
}

#[test]
fn chunked_decoder_rejects_bad_framing() {
    let mut body = Vec::new();
    assert_eq!(Decoder::chunked().decode(b"zz\r\n", &mut body), Err(Error::InvalidChunkFraming));
    assert_eq!(Decoder::chunked().decode(b"\r\n", &mut body), Err(Error::InvalidChunkFraming));
    assert_eq!(Decoder::chunked().decode(b"1\r\naXY", &mut body), Err(Error::InvalidChunkFraming));
    assert_eq!(
        Decoder::chunked().decode(b"11111111111111111\r\n", &mut body),
        Err(Error::InvalidChunkFraming)
    );
}

#[test]
fn chunked_decoder_skips_trailers_and_reads_hex() {
    let mut d = Decoder::chunked();
    let mut body = Vec::new();
    let input = b"A\r\n0123456789\r\n0\r\nX-T: 1\r\n\r\n";
    assert_eq!(d.decode(input, &mut body), Ok(input.len()));
    assert_eq!(body, b"0123456789".to_vec());
    assert!(d.is_eof());
}

#[test]
fn length_zero_decoder_is_done_at_once() {
    let mut d = Decoder::length(0);
    assert!(d.is_eof());
    let mut body = Vec::new();
    assert_eq!(d.decode(b"", &mut body), Ok(0));
    assert!(body.is_empty());
    assert!(d.is_eof());
}

#[test]
fn length_decoder_takes_declared_bytes() {
    let mut d = Decoder::length(5);
    let mut body = Vec::new();
    assert_eq!(d.decode(b"abc", &mut body), Ok(3));
    assert_eq!(d, Decoder::Length(2));
    assert_eq!(d.decode(b"defgh", &mut body), Ok(2));
    assert_eq!(body, b"abcde".to_vec());
    assert!(d.is_eof());
}

#[test]
fn close_decoder_runs_to_end_of_stream() {
    let mut d = Decoder::close();
    let mut body = Vec::new();
    assert_eq!(d.decode(b"abc", &mut body), Ok(3));
    assert!(!d.is_eof());
    assert_eq!(d.on_end_of_stream(), Ok(()));
    assert!(d.is_eof());
    let mut l = Decoder::length(3);
    assert_eq!(l.on_end_of_stream(), Err(Error::UnexpectedEof));
    let mut n = Decoder::none();
    assert_eq!(n.decode(b"xyz", &mut body), Ok(0));
    assert_eq!(n.on_end_of_stream(), Ok(()));
}

#[test]
fn encoder_frames_chunks() {
    let mut e = Encoder::chunked();
    let mut out = Vec::new();
    assert_eq!(e.encode(b"Wiki", &mut out), Ok(4));
    assert_eq!(e.encode(b"", &mut out), Ok(0));
    assert_eq!(e.encode(&[7u8; 26], &mut out), Ok(26));
    assert_eq!(e.end(&mut out), Ok(()));
    let mut expect = b"4\r\nWiki\r\n1a\r\n".to_vec();
    expect.extend_from_slice(&[7u8; 26]);
    expect.extend_from_slice(b"\r\n0\r\n\r\n");
    assert_eq!(out, expect);
    assert!(e.is_eof());
    assert_eq!(e.encode(b"x", &mut out), Err(Error::BodyLengthMismatch));
}

#[test]
fn encoder_enforces_length() {
    let mut e = Encoder::length(3);
    let mut out = Vec::new();
    assert_eq!(e.encode(b"abcd", &mut out), Err(Error::BodyLengthMismatch));
    assert!(out.is_empty());
    assert_eq!(e.encode(b"ab", &mut out), Ok(2));
    assert_eq!(e.end(&mut out), Err(Error::BodyLengthMismatch));
    assert_eq!(e.encode(b"c", &mut out), Ok(1));
    assert_eq!(e.end(&mut out), Ok(()));
    assert_eq!(out, b"abc".to_vec());
    let mut c = Encoder::close();
    assert_eq!(c.encode(b"raw", &mut out), Ok(3));
    assert_eq!(c.end(&mut out), Ok(()));
    assert_eq!(out, b"abcraw".to_vec());
}

#[test]
fn request_decoder_selection() {
    assert_eq!(ServerTransaction::decoder(&request(b"GET", &[])), Ok(Decoder::NoBody));
    assert_eq!(
        ServerTransaction::decoder(&request(b"POST", &[(b"content-length", b"12")])),
        Ok(Decoder::Length(12))
    );
    assert_eq!(
        ServerTransaction::decoder(&request(b"POST", &[(b"Transfer-Encoding", b"gzip, Chunked")])),
        Ok(Decoder::chunked())
    );
    assert_eq!(
        ServerTransaction::decoder(&request(b"POST", &[(b"Transfer-Encoding", b"gzip")])),
        Ok(Decoder::NoBody)
    );
    assert_eq!(
        ServerTransaction::decoder(&request(b"HEAD", &[(b"Content-Length", b"5")])),
        Ok(Decoder::NoBody)
    );
}

#[test]
fn conflicting_lengths_are_errors() {
    assert_eq!(
        ServerTransaction::decoder(&request(b"POST", &[(b"Content-Length", b"5"), (b"Content-Length", b"5")])),
        Err(Error::ConflictingContentLength)
    );
    assert_eq!(
        ServerTransaction::decoder(&request(b"POST", &[(b"Content-Length", b"-5")])),
        Err(Error::ConflictingContentLength)
    );
    assert_eq!(
        ServerTransaction::decoder(&request(
            b"POST",
            &[(b"Content-Length", b"5"), (b"Transfer-Encoding", b"chunked")]
        )),
        Err(Error::ConflictingContentLength)
    );
    assert_eq!(
        ServerTransaction::decoder(&request(b"POST", &[(b"Content-Length", b"99999999999999999999")])),
        Err(Error::ConflictingContentLength)
    );
}

#[test]
fn response_decoder_selection() {
    assert_eq!(
        ClientTransaction::decoder(&response(204, HttpVersion::Http11, &[(b"Content-Length", b"5")])),
        Ok(Decoder::NoBody)
    );
    assert_eq!(ClientTransaction::decoder(&response(304, HttpVersion::Http11, &[])), Ok(Decoder::NoBody));
    assert_eq!(ClientTransaction::decoder(&response(101, HttpVersion::Http11, &[])), Ok(Decoder::NoBody));
    assert_eq!(ClientTransaction::decoder(&response(200, HttpVersion::Http10, &[])), Ok(Decoder::close()));
    assert_eq!(
        ClientTransaction::decoder(&response(200, HttpVersion::Http11, &[(b"Content-Length", b"7")])),
        Ok(Decoder::Length(7))
    );
}

#[test]
fn request_encoding_frames_by_headers() {
    let mut out = Vec::new();
    let mut get = request(b"GET", &[(b"Host", b"h")]);
    assert_eq!(ClientTransaction::encode(&mut get, &mut out), Ok(Encoder::Length(0)));
    assert_eq!(out, b"GET / HTTP/1.1\r\nHost: h\r\n\r\n".to_vec());
    let mut out2 = Vec::new();
    let mut post = request(b"POST", &[(b"Transfer-Encoding", b"gzip")]);
    assert_eq!(ClientTransaction::encode(&mut post, &mut out2), Ok(Encoder::chunked()));
    assert_eq!(out2, b"POST / HTTP/1.1\r\nTransfer-Encoding: gzip, chunked\r\n\r\n".to_vec());
}

#[test]
fn request_encoding_refuses_broken_length() {
    let mut out = Vec::new();
    let mut post = request(b"POST", &[(b"Content-Length", b"1"), (b"content-length", b"2")]);
    assert_eq!(ClientTransaction::encode(&mut post, &mut out), Err(Error::ConflictingContentLength));
    assert!(out.is_empty());
    assert_eq!(post.headers.len(), 2);
}

#[test]
fn chunked_error_leaves_body_and_state() {
    let mut d = Decoder::chunked();
    let mut body = b"kept".to_vec();
    assert_eq!(d.decode(b"2\r\nab\r\n1\r\nxY", &mut body), Err(Error::InvalidChunkFraming));
    assert_eq!(body, b"kept".to_vec());
    assert_eq!(d, Decoder::chunked());
}

#[test]
fn chunked_encoder_output_decodes_back() {
    let mut e = Encoder::chunked();
    let mut wire = Vec::new();
    e.encode(b"hello ", &mut wire).unwrap();
    e.encode(&[b'x'; 300], &mut wire).unwrap();
    e.end(&mut wire).unwrap();
    wire.extend_from_slice(b"GET");
    let mut d = Decoder::chunked();
    let mut body = Vec::new();
    assert_eq!(d.decode(&wire, &mut body), Ok(wire.len() - 3));
    assert!(d.is_eof());
    let mut expect = b"hello ".to_vec();
    expect.extend_from_slice(&[b'x'; 300]);
    assert_eq!(body, expect);
}

#[test]
fn chunked_must_be_last_and_single() {
    assert_eq!(
        ServerTransaction::decoder(&request(b"POST", &[(b"Transfer-Encoding", b"chunked, gzip")])),
        Err(Error::InvalidChunkFraming)
    );
    assert_eq!(
        ServerTransaction::decoder(&request(b"POST", &[(b"Transfer-Encoding", b"chunked, chunked")])),
        Err(Error::InvalidChunkFraming)
    );
    assert_eq!(
        ServerTransaction::decoder(&request(
            b"POST",
            &[(b"Transfer-Encoding", b"chunked"), (b"transfer-encoding", b"chunked")]
        )),
        Err(Error::InvalidChunkFraming)
    );
    assert_eq!(
        ClientTransaction::decoder(&response(200, HttpVersion::Http11, &[(b"Transfer-Encoding", b"CHUNKED ,gzip")])),
        Err(Error::InvalidChunkFraming)
    );
    assert_eq!(
        ServerTransaction::decoder(&request(
            b"POST",
            &[(b"Transfer-Encoding", b"gzip"), (b"Transfer-Encoding", b"deflate, chunked")]
        )),
        Ok(Decoder::chunked())
    );
    let mut out = Vec::new();
    let mut post = request(b"POST", &[(b"Transfer-Encoding", b"chunked, gzip")]);
    assert_eq!(ClientTransaction::encode(&mut post, &mut out), Err(Error::InvalidChunkFraming));
    assert!(out.is_empty());
}
