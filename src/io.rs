//! One connection's read side: a transport buffer plus the decisions taken on
//! each outcome of a read from the transport. The caller performs the reads and
//! hands their outcome to `Io`; `Io` never waits.
use vstd::prelude::*;
use crate::buffer::TransportBuffer;
use crate::decoder::{Decoder, decode_spec, decoder_done};
use crate::error::Error;
use crate::head::MessageHead;
use crate::parse::{HeadView, ParseResult};
use crate::transaction::Http1Transaction;

verus! {

/// The outcome of one nonblocking read from the transport.
pub enum ReadEvent {
    /// These bytes arrived; an empty read means nothing is available yet. A
    /// read must fit in the buffer's free capacity: one that does not is too large.
    Data(Vec<u8>),
    /// Nothing is available right now.
    WouldBlock,
    /// The peer ended the stream.
    Eof,
    /// The transport failed.
    Failed,
}

/// The read brought more bytes than fit under the ceiling of `b`.
pub open spec fn overflows(b: TransportBuffer, event: ReadEvent) -> bool {
    match event {
        ReadEvent::Data(v) => v@.len() > b.ceiling() - b.used(),
        _ => false,
    }
}

/// The unconsumed bytes once `event` has been taken into `b`.
pub open spec fn pending_after(b: TransportBuffer, event: ReadEvent) -> Seq<u8> {
    match event {
        ReadEvent::Data(v) => b.pending() + v@,
        _ => b.pending(),
    }
}

/// The used storage once `event` has been taken into `b`.
pub open spec fn used_after(b: TransportBuffer, event: ReadEvent) -> nat {
    match event {
        ReadEvent::Data(v) => b.used() + v@.len(),
        _ => b.used(),
    }
}

/// What one parse step returns and leaves buffered, given the scan `sc` of the
/// buffered bytes. A failed read fails, and a read that does not fit under the
/// ceiling is too large; neither changes what is buffered. A cut-off head waits
/// for more, unless the stream ended (`Closed` when nothing of a next message
/// had arrived, else `UnexpectedEof`) or
/// the buffer is full. A decided head is returned or fails, and exactly its
/// bytes are consumed.
pub open spec fn step_agrees<S: View>(
    old_buf: TransportBuffer,
    event: ReadEvent,
    sc: Option<Result<(HeadView<S::V>, int), Error>>,
    r: Result<Option<MessageHead<S>>, Error>,
    new_buf: TransportBuffer,
) -> bool {
    &&& new_buf.wf()
    &&& new_buf.ceiling() == old_buf.ceiling()
    &&& if event is Failed {
        r == Result::<Option<MessageHead<S>>, Error>::Err(Error::Transport) && new_buf.pending()
            == old_buf.pending()
    } else if overflows(old_buf, event) {
        r == Result::<Option<MessageHead<S>>, Error>::Err(Error::TooLarge) && new_buf.pending()
            == old_buf.pending()
    } else {
        let b = pending_after(old_buf, event);
        match sc {
            None => new_buf.pending() == b && new_buf.used() == used_after(old_buf, event) && if event is Eof {
                if b.len() == 0 {
                    r == Result::<Option<MessageHead<S>>, Error>::Err(Error::Closed)
                } else {
                    r == Result::<Option<MessageHead<S>>, Error>::Err(Error::UnexpectedEof)
                }
            } else if used_after(old_buf, event) >= old_buf.ceiling() {
                r == Result::<Option<MessageHead<S>>, Error>::Err(Error::TooLarge)
            } else {
                r == Result::<Option<MessageHead<S>>, Error>::Ok(None)
            },
            Some(Err(x)) => r == Result::<Option<MessageHead<S>>, Error>::Err(x),
            Some(Ok((hv, n))) => r is Ok && r->Ok_0 is Some && r->Ok_0->Some_0@ == hv
                && new_buf.pending() == b.skip(n),
        }
    }
}

pub struct Io {
    buf: TransportBuffer,
}

impl Io {
    pub closed spec fn buffer(&self) -> TransportBuffer {
        self.buf
    }

    pub fn new(max_buffer_size: usize) -> (r: Io)
        ensures
            r.buffer().wf(),
            r.buffer().pending() == Seq::<u8>::empty(),
            r.buffer().used() == 0,
            r.buffer().ceiling() == max_buffer_size,
    {
        Io { buf: TransportBuffer::new(max_buffer_size) }
    }

    /// How many bytes the next read from the transport may bring.
    pub fn free_capacity(&self) -> (r: usize)
        requires
            self.buffer().wf(),
        ensures
            r == self.buffer().ceiling() - self.buffer().used(),
    {
        self.buf.free_capacity()
    }

    /// How many unconsumed bytes are buffered.
    pub fn buffered(&self) -> (r: usize)
        requires
            self.buffer().wf(),
        ensures
            r == self.buffer().pending().len(),
    {
        self.buf.len()
    }

    /// Moves up to `max` buffered bytes to `dst` and returns how many. When the
    /// buffer was empty it is reset, and the caller reads from the transport
    /// directly.
    pub fn read(&mut self, max: usize, dst: &mut Vec<u8>) -> (r: usize)
        requires
            old(self).buffer().wf(),
        ensures
            final(self).buffer().wf(),
            final(self).buffer().ceiling() == old(self).buffer().ceiling(),
            r == if max < old(self).buffer().pending().len() {
                max as int
            } else {
                old(self).buffer().pending().len() as int
            },
            final(dst)@ == old(dst)@ + old(self).buffer().pending().take(r as int),
            final(self).buffer().pending() == old(self).buffer().pending().skip(r as int),
            old(self).buffer().pending().len() == 0 ==> final(self).buffer().used() == 0,
    {
        let n = self.buf.len();
        let k = if max < n {
            max
        } else {
            n
        };
        let s = self.buf.bytes();
        let mut i: usize = 0;
        while i < k
            invariant
                k <= s@.len(),
                0 <= i <= k,
                s@ == old(self).buffer().pending(),
                dst@ == old(dst)@ + s@.take(i as int),
            decreases k - i,
        {
            dst.push(s[i]);
            i += 1;
            assert(dst@ =~= old(dst)@ + s@.take(i as int));
        }
        self.buf.consume(k);
        if n == 0 {
            self.buf.reset();
        }
        k
    }

    /// Takes the read's bytes in; `Err` for a failed read or one that does not
    /// fit, `Ok(true)` at end of stream.
    fn take_in(&mut self, event: ReadEvent) -> (r: Result<bool, Error>)
        requires
            old(self).buffer().wf(),
        ensures
            final(self).buffer().wf(),
            final(self).buffer().ceiling() == old(self).buffer().ceiling(),
            event is Failed ==> r == Result::<bool, Error>::Err(Error::Transport) && final(self).buffer().pending() == old(self).buffer().pending(),
            overflows(old(self).buffer(), event) ==> r == Result::<bool, Error>::Err(Error::TooLarge) && final(self).buffer().pending() == old(self).buffer().pending(),
            !(event is Failed) && !overflows(old(self).buffer(), event) ==> r == Result::<bool, Error>::Ok(event is Eof)
                && final(self).buffer().pending() == pending_after(old(self).buffer(), event)
                && final(self).buffer().used() == used_after(old(self).buffer(), event),
    {
        match event {
            ReadEvent::Data(v) => {
                if v.len() > self.buf.free_capacity() {
                    return Err(Error::TooLarge);
                }
                self.buf.read_from(v.as_slice());
                assert(v@.take(v@.len() as int) =~= v@);
                Ok(false)
            },
            ReadEvent::WouldBlock => Ok(false),
            ReadEvent::Eof => Ok(true),
            ReadEvent::Failed => Err(Error::Transport),
        }
    }

    /// One step towards an incoming head for the role `T`: takes in the
    /// outcome of a read and parses what is buffered (see `step_agrees`).
    pub fn parse<T: Http1Transaction>(&mut self, event: ReadEvent) -> (r: Result<Option<MessageHead<T::Incoming>>, Error>)
        requires
            old(self).buffer().wf(),
        ensures
            step_agrees(old(self).buffer(), event, T::scan(pending_after(old(self).buffer(), event)), r, final(self).buffer()),
    {
        let eof = match self.take_in(event) {
            Err(x) => {
                return Err(x);
            },
            Ok(e) => e,
        };
        let parsed: ParseResult<T::Incoming> = T::parse(self.buf.bytes());
        match parsed {
            Err(x) => Err(x),
            Ok(Some((head, n))) => {
                self.buf.consume(n);
                Ok(Some(head))
            },
            Ok(None) => if eof {
                if self.buf.len() == 0 {
                    Err(Error::Closed)
                } else {
                    Err(Error::UnexpectedEof)
                }
            } else if self.buf.is_max_size() {
                Err(Error::TooLarge)
            } else {
                Ok(None)
            },
        }
    }

    /// One step of an incoming body: takes in the outcome of a read, then feeds
    /// the buffered bytes to `decoder`, appending the body bytes to `body` and
    /// consuming exactly what the decoder took. Bytes after the body stay
    /// buffered for the next head. At end of stream the decoder is told so: a
    /// body that runs until then is complete, any other unfinished body fails.
    pub fn decode_body(&mut self, decoder: &mut Decoder, event: ReadEvent, body: &mut Vec<u8>) -> (r: Result<(), Error>)
        requires
            old(self).buffer().wf(),
        ensures
            final(self).buffer().wf(),
            final(self).buffer().ceiling() == old(self).buffer().ceiling(),
            event is Failed ==> r == Result::<(), Error>::Err(Error::Transport),
            overflows(old(self).buffer(), event) ==> r == Result::<(), Error>::Err(Error::TooLarge),
            !(event is Failed) && !overflows(old(self).buffer(), event) ==> match decode_spec(*old(decoder), pending_after(old(self).buffer(), event)) {
                None => r == Result::<(), Error>::Err(Error::InvalidChunkFraming),
                Some((d, out, n)) => {
                    &&& final(body)@ == old(body)@ + out
                    &&& final(self).buffer().pending() == pending_after(old(self).buffer(), event).skip(n as int)
                    &&& if event is Eof && !decoder_done(d) {
                        if d is Close {
                            r is Ok && *final(decoder) == Decoder::Close(true)
                        } else {
                            r == Result::<(), Error>::Err(Error::UnexpectedEof)
                        }
                    } else {
                        r is Ok && *final(decoder) == d
                    }
                },
            },
    {
        let eof = match self.take_in(event) {
            Err(x) => {
                return Err(x);
            },
            Ok(e) => e,
        };
        let n = match decoder.decode(self.buf.bytes(), body) {
            Err(x) => {
                return Err(x);
            },
            Ok(n) => n,
        };
        self.buf.consume(n);
        self.buf.reset();
        if eof && !decoder.is_eof() {
            decoder.on_end_of_stream()
        } else {
            Ok(())
        }
    }
}

/// A parse step that waited: it returned `Ok(None)` on a read that brought bytes.
pub open spec fn waited<T: Http1Transaction>(old_buf: TransportBuffer, event: ReadEvent, new_buf: TransportBuffer) -> bool {
    &&& event is Data
    &&& event->Data_0@.len() > 0
    &&& step_agrees::<T::Incoming>(
        old_buf,
        event,
        T::scan(pending_after(old_buf, event)),
        Result::<Option<MessageHead<T::Incoming>>, Error>::Ok(None),
        new_buf,
    )
}

proof fn lemma_waited_grows<T: Http1Transaction>(old_buf: TransportBuffer, event: ReadEvent, new_buf: TransportBuffer)
    requires
        waited::<T>(old_buf, event, new_buf),
    ensures
        new_buf.used() >= old_buf.used() + 1,
        new_buf.used() < new_buf.ceiling(),
        new_buf.ceiling() == old_buf.ceiling(),
{
}

/// No endless waiting: starting from an empty buffer, every parse step that
/// brings at least one byte and still waits for the head uses more storage,
/// and a step may only wait below the ceiling. So fewer steps than the ceiling
/// can wait in a row; the next one returns the head or fails, with `TooLarge`
/// when the head still does not fit.
pub proof fn lemma_waiting_is_bounded<T: Http1Transaction>(bufs: Seq<TransportBuffer>, events: Seq<ReadEvent>)
    requires
        bufs.len() == events.len() + 1,
        bufs[0].used() == 0,
        forall|i: int| 0 <= i < events.len() ==> waited::<T>(bufs[i], #[trigger] events[i], bufs[i + 1]),
    ensures
        events.len() > 0 ==> events.len() < bufs[0].ceiling(),
{
    assert forall|k: int| 0 <= k <= events.len() implies #[trigger] bufs[k].used() >= k
        && bufs[k].ceiling() == bufs[0].ceiling() && (k > 0 ==> bufs[k].used() < bufs[k].ceiling()) by {
        lemma_used_grows::<T>(bufs, events, k);
    }
    if events.len() > 0 {
        assert(bufs[events.len() as int].used() >= events.len());
    }
}

proof fn lemma_used_grows<T: Http1Transaction>(bufs: Seq<TransportBuffer>, events: Seq<ReadEvent>, k: int)
    requires
        bufs.len() == events.len() + 1,
        bufs[0].used() == 0,
        forall|i: int| 0 <= i < events.len() ==> waited::<T>(bufs[i], #[trigger] events[i], bufs[i + 1]),
        0 <= k <= events.len(),
    ensures
        bufs[k].used() >= k,
        bufs[k].ceiling() == bufs[0].ceiling(),
        k > 0 ==> bufs[k].used() < bufs[k].ceiling(),
    decreases k,
{
    if k > 0 {
        lemma_used_grows::<T>(bufs, events, k - 1);
        lemma_waited_grows::<T>(bufs[k - 1], events[k - 1], bufs[k]);
    }
}

/// Fill-size independence for a connection: while what is buffered is a prefix
/// of a message `m` whose head is `hv` with length `n`, or holds all of that
/// head, a parse step returns no other head and no grammar error. It waits, or
/// fails for a full buffer or a stream ended early, until the head is decided;
/// then it returns `hv` and consumes exactly `n` bytes. The head is returned by
/// the first step after which all of its `n` bytes are buffered, and by no
/// earlier one.
pub proof fn lemma_step_follows_message<T: Http1Transaction>(
    old_buf: TransportBuffer,
    event: ReadEvent,
    r: Result<Option<MessageHead<T::Incoming>>, Error>,
    new_buf: TransportBuffer,
    m: Seq<u8>,
    hv: HeadView<<T::Incoming as View>::V>,
    n: int,
)
    requires
        step_agrees::<T::Incoming>(old_buf, event, T::scan(pending_after(old_buf, event)), r, new_buf),
        !(event is Failed),
        !overflows(old_buf, event),
        T::scan(m) == Some(Ok::<(HeadView<<T::Incoming as View>::V>, int), Error>((hv, n))),
        pending_after(old_buf, event).is_prefix_of(m) || m.is_prefix_of(pending_after(old_buf, event)),
    ensures
        r is Ok && r->Ok_0 is Some ==> r->Ok_0->Some_0@ == hv && new_buf.pending() == pending_after(old_buf, event).skip(n),
        r is Err ==> r == Result::<Option<MessageHead<T::Incoming>>, Error>::Err(Error::TooLarge)
            || r == Result::<Option<MessageHead<T::Incoming>>, Error>::Err(Error::UnexpectedEof)
            || r == Result::<Option<MessageHead<T::Incoming>>, Error>::Err(Error::Closed),
        m.is_prefix_of(pending_after(old_buf, event)) ==> r is Ok && r->Ok_0 is Some,
        pending_after(old_buf, event).is_prefix_of(m) && pending_after(old_buf, event).len() >= n
            ==> r is Ok && r->Ok_0 is Some,
        pending_after(old_buf, event).is_prefix_of(m) && pending_after(old_buf, event).len() < n
            ==> !(r is Ok && r->Ok_0 is Some),
{
    let b = pending_after(old_buf, event);
    if b.is_prefix_of(m) {
        assert(m.take(b.len() as int) =~= b);
        T::lemma_scan_cut(m, b.len() as int);
    }
    if m.is_prefix_of(b) {
        let t = b.subrange(m.len() as int, b.len() as int);
        assert(b =~= m + t);
        T::lemma_scan_extend(m, t);
    } else if T::scan(b) is Some {
        let t = m.subrange(b.len() as int, m.len() as int);
        assert(m =~= b + t);
        T::lemma_scan_extend(b, t);
    }
}

} // verus!
