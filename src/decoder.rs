//! Body decoding: fixed length, chunked, until end of stream, or none.
use vstd::prelude::*;
use crate::bytes::{hex_val, push_all, CR, LF};
use crate::error::Error;

verus! {

/// Where a chunked body stands between two bytes.
#[derive(PartialEq, Eq, Structural, Clone, Copy, Debug)]
pub enum ChunkedState {
    /// Reading the hex size; the flag says whether a digit was seen.
    Size(u64, bool),
    /// The size line's CR was read; its LF comes next.
    SizeLf(u64),
    /// Inside a chunk, with this many data bytes still to come (at least one).
    Data(u64),
    /// The chunk's data is read; its CR comes next.
    DataCr,
    /// The chunk's CR is read; its LF comes next.
    DataLf,
    /// At the start of a trailer line, after the last chunk.
    Trailer,
    /// Inside a trailer line.
    TrailerLine,
    /// A trailer line's CR was read; its LF comes next.
    TrailerLf,
    /// The final blank line's CR was read; its LF comes next.
    EndLf,
    /// The body is complete.
    Done,
}

/// One byte of chunked input: the next state and the body bytes it yields, or
/// `None` when the byte breaks the framing.
pub open spec fn chunked_step(st: ChunkedState, b: u8) -> Option<(ChunkedState, Seq<u8>)> {
    match st {
        ChunkedState::Size(v, seen) => {
            if hex_val(b) is Some {
                let d = hex_val(b)->Some_0;
                if v * 16 + d <= u64::MAX {
                    Some((ChunkedState::Size((v * 16 + d) as u64, true), Seq::empty()))
                } else {
                    None
                }
            } else if b == CR && seen {
                Some((ChunkedState::SizeLf(v), Seq::empty()))
            } else {
                None
            }
        },
        ChunkedState::SizeLf(v) => {
            if b != LF {
                None
            } else if v == 0 {
                Some((ChunkedState::Trailer, Seq::empty()))
            } else {
                Some((ChunkedState::Data(v), Seq::empty()))
            }
        },
        ChunkedState::Data(r) => {
            if r <= 1 {
                Some((ChunkedState::DataCr, seq![b]))
            } else {
                Some((ChunkedState::Data((r - 1) as u64), seq![b]))
            }
        },
        ChunkedState::DataCr => if b == CR {
            Some((ChunkedState::DataLf, Seq::empty()))
        } else {
            None
        },
        ChunkedState::DataLf => if b == LF {
            Some((ChunkedState::Size(0, false), Seq::empty()))
        } else {
            None
        },
        ChunkedState::Trailer => if b == CR {
            Some((ChunkedState::EndLf, Seq::empty()))
        } else if b == LF {
            None
        } else {
            Some((ChunkedState::TrailerLine, Seq::empty()))
        },
        ChunkedState::TrailerLine => if b == CR {
            Some((ChunkedState::TrailerLf, Seq::empty()))
        } else if b == LF {
            None
        } else {
            Some((ChunkedState::TrailerLine, Seq::empty()))
        },
        ChunkedState::TrailerLf => if b == LF {
            Some((ChunkedState::Trailer, Seq::empty()))
        } else {
            None
        },
        ChunkedState::EndLf => if b == LF {
            Some((ChunkedState::Done, Seq::empty()))
        } else {
            None
        },
        ChunkedState::Done => Some((ChunkedState::Done, Seq::empty())),
    }
}

/// Chunked input fed byte by byte from `st`: the state reached, the body bytes
/// yielded and the bytes consumed; input after the body's end is not consumed.
/// `None` when a byte before the end breaks the framing.
pub open spec fn chunked_run(st: ChunkedState, input: Seq<u8>) -> Option<
    (ChunkedState, Seq<u8>, nat),
>
    decreases input.len(),
{
    if input.len() == 0 {
        Some((st, Seq::empty(), 0))
    } else {
        match chunked_run(st, input.drop_last()) {
            None => None,
            Some((s1, out, n)) => if s1 is Done {
                Some((s1, out, n))
            } else {
                match chunked_step(s1, input.last()) {
                    None => None,
                    Some((s2, o)) => Some((s2, out + o, n + 1)),
                }
            },
        }
    }
}

/// The framing of one incoming body.
#[derive(PartialEq, Eq, Structural, Clone, Copy, Debug)]
pub enum Decoder {
    /// A body of a declared length, with this many bytes still to come.
    Length(u64),
    /// A chunked body.
    Chunked(ChunkedState),
    /// A body that runs until the end of the stream; the flag says it came.
    Close(bool),
    /// No body.
    NoBody,
}

/// The decoder has seen the whole body.
pub open spec fn decoder_done(d: Decoder) -> bool {
    match d {
        Decoder::Length(r) => r == 0,
        Decoder::Chunked(st) => st is Done,
        Decoder::Close(eof) => eof,
        Decoder::NoBody => true,
    }
}

/// Feeding `input` to `d`: the next decoder, the body bytes and the bytes consumed.
pub open spec fn decode_spec(d: Decoder, input: Seq<u8>) -> Option<(Decoder, Seq<u8>, nat)> {
    match d {
        Decoder::Length(r) => {
            let k = if r < input.len() {
                r as int
            } else {
                input.len() as int
            };
            Some((Decoder::Length((r - k) as u64), input.take(k), k as nat))
        },
        Decoder::Chunked(st) => match chunked_run(st, input) {
            None => None,
            Some((s2, out, n)) => Some((Decoder::Chunked(s2), out, n)),
        },
        Decoder::Close(eof) => if eof {
            Some((d, Seq::empty(), 0))
        } else {
            Some((d, input, input.len()))
        },
        Decoder::NoBody => Some((d, Seq::empty(), 0)),
    }
}

fn hex_value(b: u8) -> (r: Option<u8>)
    ensures
        r == hex_val(b),
{
    if b >= 48 && b <= 57 {
        Some(b - 48)
    } else if b >= 97 && b <= 102 {
        Some(b - 87)
    } else if b >= 65 && b <= 70 {
        Some(b - 55)
    } else {
        None
    }
}

/// One byte of chunked input (see `chunked_step`); a body byte is appended to `body`.
fn step(st: ChunkedState, b: u8, body: &mut Vec<u8>) -> (r: Option<ChunkedState>)
    ensures
        chunked_step(st, b) is None ==> r is None,
        chunked_step(st, b) is Some ==> r == Some(chunked_step(st, b)->Some_0.0) && final(body)@
            == old(body)@ + chunked_step(st, b)->Some_0.1,
{
    let r = match st {
        ChunkedState::Size(v, seen) => match hex_value(b) {
            Some(d) => {
                if v > (u64::MAX - d as u64) / 16 {
                    None
                } else {
                    Some(ChunkedState::Size(v * 16 + d as u64, true))
                }
            },
            None => if b == CR && seen {
                Some(ChunkedState::SizeLf(v))
            } else {
                None
            },
        },
        ChunkedState::SizeLf(v) => if b != LF {
            None
        } else if v == 0 {
            Some(ChunkedState::Trailer)
        } else {
            Some(ChunkedState::Data(v))
        },
        ChunkedState::Data(r) => {
            body.push(b);
            if r <= 1 {
                Some(ChunkedState::DataCr)
            } else {
                Some(ChunkedState::Data(r - 1))
            }
        },
        ChunkedState::DataCr => if b == CR {
            Some(ChunkedState::DataLf)
        } else {
            None
        },
        ChunkedState::DataLf => if b == LF {
            Some(ChunkedState::Size(0, false))
        } else {
            None
        },
        ChunkedState::Trailer => if b == CR {
            Some(ChunkedState::EndLf)
        } else if b == LF {
            None
        } else {
            Some(ChunkedState::TrailerLine)
        },
        ChunkedState::TrailerLine => if b == CR {
            Some(ChunkedState::TrailerLf)
        } else if b == LF {
            None
        } else {
            Some(ChunkedState::TrailerLine)
        },
        ChunkedState::TrailerLf => if b == LF {
            Some(ChunkedState::Trailer)
        } else {
            None
        },
        ChunkedState::EndLf => if b == LF {
            Some(ChunkedState::Done)
        } else {
            None
        },
        ChunkedState::Done => Some(ChunkedState::Done),
    };
    proof {
        if let ChunkedState::Size(v, seen) = st {
            if let Some(d) = hex_val(b) {
                assert((v > (u64::MAX - d as u64) / 16) <==> (v * 16 + d > u64::MAX))
                    by (nonlinear_arith);
            }
        }
    }
    proof {
        if chunked_step(st, b) is Some {
            assert(final(body)@ =~= old(body)@ + chunked_step(st, b)->Some_0.1);
        }
    }
    r
}

proof fn lemma_run_done(st: ChunkedState, input: Seq<u8>, i: int)
    requires
        0 <= i <= input.len(),
        chunked_run(st, input.take(i)) is Some,
        chunked_run(st, input.take(i))->Some_0.0 is Done,
    ensures
        chunked_run(st, input) == chunked_run(st, input.take(i)),
    decreases input.len() - i,
{
    if i < input.len() {
        assert(input.take(i + 1).drop_last() =~= input.take(i));
        lemma_run_done(st, input, i + 1);
    } else {
        assert(input.take(i) =~= input);
    }
}

impl Decoder {
    pub fn length(n: u64) -> (r: Decoder)
        ensures
            r == Decoder::Length(n),
    {
        Decoder::Length(n)
    }

    pub fn chunked() -> (r: Decoder)
        ensures
            r == Decoder::Chunked(ChunkedState::Size(0, false)),
    {
        Decoder::Chunked(ChunkedState::Size(0, false))
    }

    pub fn close() -> (r: Decoder)
        ensures
            r == Decoder::Close(false),
    {
        Decoder::Close(false)
    }

    pub fn none() -> (r: Decoder)
        ensures
            r == Decoder::NoBody,
    {
        Decoder::NoBody
    }

    /// Whether the whole body has been decoded.
    pub fn is_eof(&self) -> (r: bool)
        ensures
            r == decoder_done(*self),
    {
        match self {
            Decoder::Length(r) => *r == 0,
            Decoder::Chunked(st) => match st {
                ChunkedState::Done => true,
                _ => false,
            },
            Decoder::Close(eof) => *eof,
            Decoder::NoBody => true,
        }
    }

    /// Takes body bytes from the front of `input` and appends them to `body`;
    /// returns how many input bytes were consumed. Input after the body's end is
    /// left alone; a cut-off body leaves the decoder not done, waiting for more.
    pub fn decode(&mut self, input: &[u8], body: &mut Vec<u8>) -> (r: Result<usize, Error>)
        ensures
            r is Ok ==> r->Ok_0 <= input@.len(),
            decode_spec(*old(self), input@) is Some ==> decode_spec(*old(self), input@)->Some_0.2 <= input.len(),
            decode_spec(*old(self), input@) is None ==> r == Result::<usize, Error>::Err(
                Error::InvalidChunkFraming,
            ),
            r is Err ==> *final(self) == *old(self) && final(body)@ == old(body)@,
            decode_spec(*old(self), input@) is Some ==> {
                let (d, out, n) = decode_spec(*old(self), input@)->Some_0;
                &&& r == Result::<usize, Error>::Ok(n as usize)
                &&& *final(self) == d
                &&& final(body)@ == old(body)@ + out
            },
    {
        match *self {
            Decoder::Length(rem) => {
                let k: usize = if rem < input.len() as u64 {
                    rem as usize
                } else {
                    input.len()
                };
                let mut i: usize = 0;
                while i < k
                    invariant
                        k <= input@.len(),
                        0 <= i <= k,
                        *self == *old(self),
                        body@ == old(body)@ + input@.take(i as int),
                    decreases k - i,
                {
                    body.push(input[i]);
                    i += 1;
                    assert(body@ =~= old(body)@ + input@.take(i as int));
                }
                *self = Decoder::Length(rem - k as u64);
                Ok(k)
            },
            Decoder::Chunked(st0) => {
                let mut st = st0;
                let mut out: Vec<u8> = Vec::new();
                let mut i: usize = 0;
                while i < input.len()
                    invariant
                        0 <= i <= input@.len(),
                        *self == *old(self),
                        *old(self) == Decoder::Chunked(st0),
                        body@ == old(body)@,
                        chunked_run(st0, input@.take(i as int)) == Some((st, out@, i as nat)),
                    decreases input@.len() - i,
                {
                    if st == ChunkedState::Done {
                        proof {
                            lemma_run_done(st0, input@, i as int);
                        }
                        push_all(body, out.as_slice());
                        *self = Decoder::Chunked(st);
                        return Ok(i);
                    }
                    proof {
                        assert(input@.take(i as int + 1).drop_last() =~= input@.take(i as int));
                    }
                    match step(st, input[i], &mut out) {
                        None => {
                            proof {
                                lemma_run_failed(st0, input@, i as int + 1);
                            }
                            return Err(Error::InvalidChunkFraming);
                        },
                        Some(next) => {
                            st = next;
                        },
                    }
                    i += 1;
                }
                proof {
                    assert(input@.take(input@.len() as int) =~= input@);
                }
                push_all(body, out.as_slice());
                *self = Decoder::Chunked(st);
                Ok(i)
            },
            Decoder::Close(eof) => {
                if eof {
                    assert(body@ =~= old(body)@ + Seq::<u8>::empty());
                    Ok(0)
                } else {
                    let mut i: usize = 0;
                    while i < input.len()
                        invariant
                            0 <= i <= input@.len(),
                            *self == *old(self),
                            *old(self) == Decoder::Close(eof),
                            body@ == old(body)@ + input@.take(i as int),
                        decreases input@.len() - i,
                    {
                        body.push(input[i]);
                        i += 1;
                        assert(body@ =~= old(body)@ + input@.take(i as int));
                    }
                    assert(input@.take(input@.len() as int) =~= input@);
                    Ok(i)
                }
            },
            Decoder::NoBody => {
                assert(body@ =~= old(body)@ + Seq::<u8>::empty());
                Ok(0)
            },
        }
    }

    /// The stream ended. That completes a body that runs until the end; any other
    /// body that is not complete was cut off.
    pub fn on_end_of_stream(&mut self) -> (r: Result<(), Error>)
        ensures
            match *old(self) {
                Decoder::Close(_) => r is Ok && *final(self) == Decoder::Close(true),
                _ => *final(self) == *old(self) && (r is Ok <==> decoder_done(*old(self)))
                    && (r is Err ==> r == Result::<(), Error>::Err(Error::UnexpectedEof)),
            },
    {
        match *self {
            Decoder::Close(_) => {
                *self = Decoder::Close(true);
                Ok(())
            },
            _ => {
                if self.is_eof() {
                    Ok(())
                } else {
                    Err(Error::UnexpectedEof)
                }
            },
        }
    }
}

proof fn lemma_run_failed(st: ChunkedState, input: Seq<u8>, i: int)
    requires
        0 < i <= input.len(),
        chunked_run(st, input.take(i)) is None,
    ensures
        chunked_run(st, input) is None,
    decreases input.len() - i,
{
    if i < input.len() {
        assert(input.take(i + 1).drop_last() =~= input.take(i));
        lemma_run_failed(st, input, i + 1);
    } else {
        assert(input.take(i) =~= input);
    }
}

} // verus!
