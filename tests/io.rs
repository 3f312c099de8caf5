use hyper::buffer::TransportBuffer;
use hyper::error::Error;
use hyper::io::{Io, ReadEvent};
use hyper::write::{AtomicWrite, WriteBuf};
use hyper::client::Handle;
use hyper::decoder::Decoder;
use hyper::transaction::{ClientTransaction, Http1Transaction, ServerTransaction};

const MSG: &[u8] = b"POST /up HTTP/1.1\r\nHost: a\r\nContent-Length: 2\r\n\r\nhi";

#[test]
fn fill_size_does_not_change_the_head() {
    let mut whole = Io::new(1024);
    let all = whole.parse::<ServerTransaction>(ReadEvent::Data(MSG.to_vec())).unwrap().unwrap();
    let rest_whole = whole.buffered();

    let mut bytewise = Io::new(1024);
    let mut got = None;
    for b in MSG {
        match bytewise.parse::<ServerTransaction>(ReadEvent::Data(vec![*b])).unwrap() {
            Some(h) => {
                got = Some(h);
                break;
            }
            None => assert_eq!(bytewise.parse::<ServerTransaction>(ReadEvent::WouldBlock).unwrap().is_none(), true),
        }
    }
    let one = got.unwrap();
    assert_eq!(one.subject.0, all.subject.0);
    assert_eq!(one.subject.1, all.subject.1);
    assert_eq!(one.headers.len(), all.headers.len());
    assert_eq!(one.headers.value_at(1), all.headers.value_at(1));
    assert_eq!(rest_whole, 2);
    assert_eq!(bytewise.buffered(), 0);
}

#[test]
fn ceiling_reached_before_head_is_too_large() {
    let mut io = Io::new(16);
    assert!(io.parse::<ServerTransaction>(ReadEvent::Data(b"GET /aaaaaaa".to_vec())).unwrap().is_none());
    assert_eq!(io.free_capacity(), 4);
    assert_eq!(
        io.parse::<ServerTransaction>(ReadEvent::Data(b"aaaaaaaaaaaa".to_vec())).err(),
        Some(Error::TooLarge)
    );
}

#[test]
fn end_of_stream_mid_head_is_unexpected() {
    let mut io = Io::new(64);
    assert!(io.parse::<ClientTransaction>(ReadEvent::Data(b"HTTP/1.1 200 OK\r\n".to_vec())).unwrap().is_none());
    assert!(io.parse::<ClientTransaction>(ReadEvent::Data(Vec::new())).unwrap().is_none());
    assert_eq!(io.parse::<ClientTransaction>(ReadEvent::Eof).err(), Some(Error::UnexpectedEof));
    assert_eq!(io.parse::<ClientTransaction>(ReadEvent::Failed).err(), Some(Error::Transport));
}

#[test]
fn read_drains_buffer_first() {
    let mut io = Io::new(128);
    let head = io.parse::<ServerTransaction>(ReadEvent::Data(MSG.to_vec())).unwrap().unwrap();
    assert_eq!(head.subject.1, b"/up".to_vec());
    let mut dst = Vec::new();
    assert_eq!(io.read(1, &mut dst), 1);
    assert_eq!(io.read(10, &mut dst), 1);
    assert_eq!(dst, b"hi".to_vec());
    assert_eq!(io.read(10, &mut dst), 0);
    assert_eq!(io.free_capacity(), 128);
}

#[test]
fn transport_buffer_cursors() {
    let mut b = TransportBuffer::new(8);
    assert_eq!(b.read_from(b"abcdefghij"), 8);
    assert!(b.is_max_size());
    assert_eq!(b.bytes(), b"abcdefgh");
    b.consume(3);
    assert_eq!(b.bytes(), b"defgh");
    b.reset();
    assert_eq!(b.free_capacity(), 0);
    b.consume(5);
    assert_eq!(b.len(), 0);
    b.reset();
    assert_eq!(b.free_capacity(), 8);
    assert!(!b.is_max_size());
}

#[test]
fn write_buf_writes_remaining_bytes() {
    let mut w = WriteBuf::new(b"hello".to_vec());
    assert!(!w.is_written());
    w.pos = 2;
    let mut dst = Vec::new();
    assert_eq!(w.write_to(&mut dst), 3);
    assert_eq!(dst, b"llo".to_vec());
    assert!(w.is_written());
    assert_eq!(w.write_to(&mut dst), 0);
}

#[test]
fn atomic_write_concatenates() {
    let mut v: Vec<u8> = b">".to_vec();
    let parts: [&[u8]; 3] = [b"ab", b"", b"cd"];
    assert_eq!(v.write_atomic(&parts), 4);
    assert_eq!(v, b">abcd".to_vec());
}

#[test]
fn handle_holds_handler() {
    let _h = Handle::new(5u8);
}

#[test]
fn body_then_next_head_from_one_read() {
    let mut io = Io::new(256);
    let mut wire = b"POST /a HTTP/1.1\r\nTransfer-Encoding: chunked\r\n\r\n3\r\nabc\r\n0\r\n\r\n".to_vec();
    wire.extend_from_slice(b"GET /b HTTP/1.1\r\n\r\n");
    let first = io.parse::<ServerTransaction>(ReadEvent::Data(wire)).unwrap().unwrap();
    let mut decoder = ServerTransaction::decoder(&first).unwrap();
    assert_eq!(decoder, Decoder::chunked());
    let mut body = Vec::new();
    assert_eq!(io.decode_body(&mut decoder, ReadEvent::WouldBlock, &mut body), Ok(()));
    assert!(decoder.is_eof());
    assert_eq!(body, b"abc".to_vec());
    let second = io.parse::<ServerTransaction>(ReadEvent::WouldBlock).unwrap().unwrap();
    assert_eq!(second.subject.1, b"/b".to_vec());
    assert_eq!(io.buffered(), 0);
}

#[test]
fn body_cut_off_by_end_of_stream() {
    let mut io = Io::new(64);
    let mut d = Decoder::length(4);
    let mut body = Vec::new();
    assert_eq!(io.decode_body(&mut d, ReadEvent::Data(b"ab".to_vec()), &mut body), Ok(()));
    assert_eq!(io.decode_body(&mut d, ReadEvent::Eof, &mut body), Err(Error::UnexpectedEof));
    let mut c = Decoder::close();
    assert_eq!(io.decode_body(&mut c, ReadEvent::Data(b"xyz".to_vec()), &mut body), Ok(()));
    assert_eq!(io.decode_body(&mut c, ReadEvent::Eof, &mut body), Ok(()));
    assert!(c.is_eof());
    assert_eq!(body, b"abxyz".to_vec());
}

#[test]
fn clean_end_of_stream_between_messages() {
    let mut io = Io::new(64);
    assert_eq!(io.parse::<ServerTransaction>(ReadEvent::Eof).err(), Some(Error::Closed));
}

#[test]
fn read_larger_than_free_capacity_is_too_large() {
    let mut io = Io::new(8);
    assert_eq!(
        io.parse::<ServerTransaction>(ReadEvent::Data(b"GET / HTTP".to_vec())).err(),
        Some(Error::TooLarge)
    );
    assert_eq!(io.buffered(), 0);
    assert_eq!(
        io.parse::<ServerTransaction>(ReadEvent::Data(b"GET / HT".to_vec())).err(),
        Some(Error::TooLarge)
    );
}

#[test]
fn write_buf_partial_writes() {
    let mut w = WriteBuf::new(b"hello".to_vec());
    assert_eq!(w.remaining(), b"hello");
    w.advance(2);
    assert_eq!(w.remaining(), b"llo");
    w.advance(3);
    assert!(w.is_written());
    assert_eq!(w.remaining(), b"");
}
