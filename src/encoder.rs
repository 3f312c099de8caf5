//! Body encoding: fixed length, chunked, or until the connection closes.
use vstd::prelude::*;
use crate::bytes::{hex_of, push_all, push_hex};
use crate::error::Error;
use crate::head::{crlf, push_crlf};

verus! {

/// The framing of one outgoing body.
#[derive(PartialEq, Eq, Structural, Clone, Copy, Debug)]
pub enum Encoder {
    /// A declared length, with this many bytes still owed.
    Length(u64),
    /// Chunked coding; the flag says the terminating chunk was written.
    Chunked(bool),
    /// Raw bytes, ended by closing the connection.
    Close,
}

/// One chunk: size in hex, CRLF, the data, CRLF.
pub open spec fn chunk_bytes(data: Seq<u8>) -> Seq<u8> {
    hex_of(data.len()) + crlf() + data + crlf()
}

/// The zero-size chunk and the blank line that end a chunked body.
pub open spec fn last_chunk_bytes() -> Seq<u8> {
    seq![48u8] + crlf() + crlf()
}

impl Encoder {
    pub fn length(n: u64) -> (r: Encoder)
        ensures
            r == Encoder::Length(n),
    {
        Encoder::Length(n)
    }

    pub fn chunked() -> (r: Encoder)
        ensures
            r == Encoder::Chunked(false),
    {
        Encoder::Chunked(false)
    }

    pub fn close() -> (r: Encoder)
        ensures
            r == Encoder::Close,
    {
        Encoder::Close
    }

    /// Whether the body is complete: its declared length is written, or its
    /// terminating chunk is.
    pub fn is_eof(&self) -> (r: bool)
        ensures
            r == match *self {
                Encoder::Length(n) => n == 0,
                Encoder::Chunked(ended) => ended,
                Encoder::Close => false,
            },
    {
        match *self {
            Encoder::Length(n) => n == 0,
            Encoder::Chunked(ended) => ended,
            Encoder::Close => false,
        }
    }

    /// Frames `data` onto `dst` and returns how many body bytes it carried.
    /// With a declared length, more bytes than are still owed is an error and
    /// writes nothing; after the terminating chunk nothing more may be written.
    /// An empty write adds nothing, so it never ends a chunked body early.
    pub fn encode(&mut self, data: &[u8], dst: &mut Vec<u8>) -> (r: Result<usize, Error>)
        ensures
            match *old(self) {
                Encoder::Length(n) => if data@.len() <= n {
                    r == Result::<usize, Error>::Ok(data@.len() as usize) && *final(self)
                        == Encoder::Length((n - data@.len()) as u64) && final(dst)@ == old(dst)@
                        + data@
                } else {
                    r == Result::<usize, Error>::Err(Error::BodyLengthMismatch) && *final(self)
                        == *old(self) && final(dst)@ == old(dst)@
                },
                Encoder::Chunked(ended) => if ended {
                    r == Result::<usize, Error>::Err(Error::BodyLengthMismatch) && final(dst)@
                        == old(dst)@ && *final(self) == *old(self)
                } else if data@.len() == 0 {
                    r == Result::<usize, Error>::Ok(0) && final(dst)@ == old(dst)@ && *final(self)
                        == *old(self)
                } else {
                    r == Result::<usize, Error>::Ok(data@.len() as usize) && final(dst)@ == old(dst)@ + chunk_bytes(data@) && *final(self) == *old(self)
                },
                Encoder::Close => r == Result::<usize, Error>::Ok(data@.len() as usize) && final(dst)@ == old(dst)@ + data@ && *final(self) == *old(self),
            },
    {
        match *self {
            Encoder::Length(n) => {
                if data.len() as u64 > n {
                    return Err(Error::BodyLengthMismatch);
                }
                push_all(dst, data);
                *self = Encoder::Length(n - data.len() as u64);
                Ok(data.len())
            },
            Encoder::Chunked(ended) => {
                if ended {
                    return Err(Error::BodyLengthMismatch);
                }
                if data.len() == 0 {
                    return Ok(0);
                }
                push_hex(data.len() as u64, dst);
                push_crlf(dst);
                push_all(dst, data);
                push_crlf(dst);
                assert(final(dst)@ =~= old(dst)@ + chunk_bytes(data@));
                Ok(data.len())
            },
            Encoder::Close => {
                push_all(dst, data);
                Ok(data.len())
            },
        }
    }

    /// Ends the body: a chunked body gets its terminating chunk; a declared
    /// length must have been written in full.
    pub fn end(&mut self, dst: &mut Vec<u8>) -> (r: Result<(), Error>)
        ensures
            match *old(self) {
                Encoder::Length(n) => (r is Ok <==> n == 0) && (r is Err ==> r == Result::<
                    (),
                    Error,
                >::Err(Error::BodyLengthMismatch)) && final(dst)@ == old(dst)@ && *final(self)
                    == *old(self),
                Encoder::Chunked(ended) => if ended {
                    r is Ok && final(dst)@ == old(dst)@ && *final(self) == *old(self)
                } else {
                    r is Ok && final(dst)@ == old(dst)@ + last_chunk_bytes() && *final(self)
                        == Encoder::Chunked(true)
                },
                Encoder::Close => r is Ok && final(dst)@ == old(dst)@ && *final(self) == *old(self),
            },
    {
        match *self {
            Encoder::Length(n) => if n == 0 {
                Ok(())
            } else {
                Err(Error::BodyLengthMismatch)
            },
            Encoder::Chunked(ended) => {
                if !ended {
                    dst.push(48);
                    push_crlf(dst);
                    push_crlf(dst);
                    assert(final(dst)@ =~= old(dst)@ + last_chunk_bytes());
                    *self = Encoder::Chunked(true);
                }
                Ok(())
            },
            Encoder::Close => Ok(()),
        }
    }
}

} // verus!
