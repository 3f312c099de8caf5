//! The two roles of a connection: which heads come in, which go out, and how
//! each picks the framing of its bodies.
use vstd::prelude::*;
use crate::bytes::{
    list_has, list_init_has, list_contains, list_init_contains,
    all_digits, decimal, eq_ignore_case, eq_ignore_case_bytes, list_last, list_last_range,
    parse_decimal, push_all,
};
use crate::decoder::{ChunkedState, Decoder};
use crate::encoder::Encoder;
use crate::error::Error;
use crate::head::{
    MessageHead, RawStatus, RequestHead, RequestLine, ResponseHead, encode_request_head, encode_response_head,
    request_head_bytes, response_head_bytes,
};
use crate::headers::{
    Headers, HeaderSeq, find_named, has_named, last_named, lemma_find_named, kw_chunked,
    kw_content_length, kw_date, kw_transfer_encoding, chunked_kw, content_length_kw, date_kw,
    transfer_encoding_kw,
};
use crate::parse::{HeadView, ParseResult, agrees, bytes_eq, lemma_request_scan_extend, lemma_response_scan_extend, lemma_request_scan_cut, lemma_response_scan_cut, parse_request, parse_response, request_scan, response_scan};

verus! {

/// What the Content-Length fields of `hs` say: `None` when there is none,
/// the length when there is exactly one and it is a decimal number that fits in
/// 64 bits, and `Err` otherwise.
pub open spec fn content_length_of(hs: HeaderSeq) -> Option<Result<u64, ()>> {
    let i = find_named(hs, kw_content_length(), 0);
    if i >= hs.len() {
        None
    } else if find_named(hs, kw_content_length(), i + 1) < hs.len() {
        Some(Err(()))
    } else if hs[i].1.len() > 0 && all_digits(hs[i].1) && decimal(hs[i].1) <= u64::MAX {
        Some(Ok(decimal(hs[i].1) as u64))
    } else {
        Some(Err(()))
    }
}

/// Index of the last Transfer-Encoding field, or -1.
pub open spec fn last_transfer_encoding(hs: HeaderSeq) -> int {
    last_named(hs, kw_transfer_encoding(), hs.len() as int)
}

/// The last coding of the last Transfer-Encoding field is chunked.
pub open spec fn is_chunked(hs: HeaderSeq) -> bool {
    let j = last_transfer_encoding(hs);
    j >= 0 && eq_ignore_case(list_last(hs[j].1, 0), kw_chunked())
}

/// Chunked coding is listed somewhere other than last: in a Transfer-Encoding
/// field before the last one, or before the last coding of the last one. This
/// also covers chunked listed twice in a row.
pub open spec fn chunked_misplaced(hs: HeaderSeq) -> bool {
    exists|k: int|
        0 <= k < hs.len() && eq_ignore_case(#[trigger] hs[k].0, kw_transfer_encoding()) && if k
            == last_transfer_encoding(hs) {
            list_init_has(hs[k].1, 0, kw_chunked())
        } else {
            list_has(hs[k].1, 0, kw_chunked())
        }
}

/// Framing from the headers alone: chunked, else a declared length, else
/// `fallback`. A broken or repeated Content-Length, or one beside chunked
/// coding, is an error; so is chunked coding listed anywhere but last.
pub open spec fn framing(hs: HeaderSeq, fallback: Decoder) -> Result<Decoder, Error> {
    let cl = content_length_of(hs);
    if chunked_misplaced(hs) {
        Err(Error::InvalidChunkFraming)
    } else if cl is Some && cl->Some_0 is Err {
        Err(Error::ConflictingContentLength)
    } else if is_chunked(hs) {
        if cl is Some {
            Err(Error::ConflictingContentLength)
        } else {
            Ok(Decoder::Chunked(ChunkedState::Size(0, false)))
        }
    } else if cl is Some {
        Ok(Decoder::Length(cl->Some_0->Ok_0))
    } else {
        Ok(fallback)
    }
}

pub open spec fn method_head() -> Seq<u8> {
    seq![72u8, 69, 65, 68]
}

/// A status whose response never has a body: 1xx, 204, 304.
pub open spec fn bodiless_status(code: u16) -> bool {
    (100 <= code && code <= 199) || code == 204 || code == 304
}

/// The body framing of an incoming request: none for HEAD, else from its headers,
/// with no body when they declare none.
pub open spec fn request_decoder(h: HeadView<(Seq<u8>, Seq<u8>)>) -> Result<Decoder, Error> {
    if h.1.0 == method_head() {
        Ok(Decoder::NoBody)
    } else {
        framing(h.2, Decoder::NoBody)
    }
}

/// The body framing of an incoming response: none for 1xx, 204 and 304, else
/// from its headers, running until the end of the stream when they declare none.
pub open spec fn response_decoder(h: HeadView<(u16, Seq<u8>)>) -> Result<Decoder, Error> {
    if bodiless_status(h.1.0) {
        Ok(Decoder::NoBody)
    } else {
        framing(h.2, Decoder::Close(false))
    }
}

/// `hs` with chunked as the last coding of its last Transfer-Encoding field,
/// appending the coding or the field where needed.
pub open spec fn with_chunked(hs: HeaderSeq) -> HeaderSeq {
    let j = last_transfer_encoding(hs);
    if j < 0 {
        hs.push((kw_transfer_encoding(), kw_chunked()))
    } else if is_chunked(hs) {
        hs
    } else {
        hs.update(j, (hs[j].0, hs[j].1 + seq![44u8, 32] + kw_chunked()))
    }
}

/// Outgoing framing: a valid Content-Length is trusted and the body is not
/// chunked; with none the body is chunked; a broken or repeated one is an
/// error, and so is chunked coding already listed anywhere but last.
pub open spec fn outgoing_framing(hs: HeaderSeq) -> Result<(HeaderSeq, Encoder), Error> {
    match content_length_of(hs) {
        Some(Ok(n)) => Ok((hs, Encoder::Length(n))),
        Some(Err(_)) => Err(Error::ConflictingContentLength),
        None => if chunked_misplaced(hs) {
            Err(Error::InvalidChunkFraming)
        } else {
            Ok((with_chunked(hs), Encoder::Chunked(false)))
        },
    }
}

/// A response's headers after serialization: a Date field when there was none,
/// then its framing.
pub open spec fn response_framing(hs: HeaderSeq, date: Seq<u8>) -> Result<(HeaderSeq, Encoder), Error> {
    outgoing_framing(dated(hs, date))
}

/// A request's framing: a valid Content-Length is trusted, a Transfer-Encoding
/// field gets chunked coding last, and with neither there is no body.
pub open spec fn request_framing(hs: HeaderSeq) -> Result<(HeaderSeq, Encoder), Error> {
    if content_length_of(hs) is None && last_transfer_encoding(hs) < 0 {
        Ok((hs, Encoder::Length(0)))
    } else {
        outgoing_framing(hs)
    }
}

/// The headers of `hs` once a Date field is added when there is none.
pub open spec fn dated(hs: HeaderSeq, date: Seq<u8>) -> HeaderSeq {
    if has_named(hs, kw_date()) {
        hs
    } else {
        hs.push((kw_date(), date))
    }
}

proof fn lemma_find_named_push(hs: HeaderSeq, n: Seq<u8>, x: (Seq<u8>, Seq<u8>), i: int)
    requires
        0 <= i <= hs.len(),
        !eq_ignore_case(x.0, n),
    ensures
        find_named(hs.push(x), n, i) == if find_named(hs, n, i) < hs.len() {
            find_named(hs, n, i)
        } else {
            hs.len() as int + 1
        },
    decreases hs.len() - i,
{
    if i < hs.len() {
        assert(hs.push(x)[i] == hs[i]);
        if !eq_ignore_case(hs[i].0, n) {
            lemma_find_named_push(hs, n, x, i + 1);
        }
    } else {
        assert(hs.push(x)[i] == x);
        assert(find_named(hs.push(x), n, i + 1) == hs.len() + 1);
    }
}

pub proof fn lemma_date_not_length()
    ensures
        !eq_ignore_case(kw_date(), kw_content_length()),
        !eq_ignore_case(kw_date(), kw_transfer_encoding()),
{
    assert(kw_date().len() == 4);
    assert(kw_content_length().len() == 14);
    assert(kw_transfer_encoding().len() == 17);
}

proof fn lemma_last_named_push(hs: HeaderSeq, n: Seq<u8>, x: (Seq<u8>, Seq<u8>), j: int)
    requires
        0 <= j <= hs.len(),
    ensures
        last_named(hs.push(x), n, j) == last_named(hs, n, j),
    decreases j,
{
    if j > 0 {
        assert(hs.push(x)[j - 1] == hs[j - 1]);
        lemma_last_named_push(hs, n, x, j - 1);
    }
}

/// Adding a Date field does not change where chunked coding is listed.
pub proof fn lemma_dated_misplaced(hs: HeaderSeq, date: Seq<u8>)
    ensures
        chunked_misplaced(dated(hs, date)) == chunked_misplaced(hs),
        last_transfer_encoding(dated(hs, date)) == last_transfer_encoding(hs),
{
    lemma_date_not_length();
    if !has_named(hs, kw_date()) {
        let x = (kw_date(), date);
        let hp = hs.push(x);
        lemma_last_named_push(hs, kw_transfer_encoding(), x, hs.len() as int);
        assert(hp[hs.len() as int] == x);
        assert(last_transfer_encoding(hp) == last_transfer_encoding(hs));
        if chunked_misplaced(hp) {
            let k = choose|k: int|
                0 <= k < hp.len() && eq_ignore_case(#[trigger] hp[k].0, kw_transfer_encoding()) && if k
                    == last_transfer_encoding(hp) {
                    list_init_has(hp[k].1, 0, kw_chunked())
                } else {
                    list_has(hp[k].1, 0, kw_chunked())
                };
            assert(k < hs.len());
            assert(hp[k] == hs[k]);
        }
        if chunked_misplaced(hs) {
            let k = choose|k: int|
                0 <= k < hs.len() && eq_ignore_case(#[trigger] hs[k].0, kw_transfer_encoding()) && if k
                    == last_transfer_encoding(hs) {
                    list_init_has(hs[k].1, 0, kw_chunked())
                } else {
                    list_has(hs[k].1, 0, kw_chunked())
                };
            assert(hp[k] == hs[k]);
        }
    }
}

pub proof fn lemma_dated_length(hs: HeaderSeq, date: Seq<u8>)
    ensures
        content_length_of(dated(hs, date)) == content_length_of(hs),
{
    lemma_date_not_length();
    if !has_named(hs, kw_date()) {
        let x = (kw_date(), date);
        let hp = hs.push(x);
        let n = kw_content_length();
        lemma_find_named_push(hs, n, x, 0);
        lemma_find_named(hs, n, 0);
        let i = find_named(hs, n, 0);
        if i < hs.len() {
            lemma_find_named_push(hs, n, x, i + 1);
            lemma_find_named(hs, n, i + 1);
            assert(hp[i] == hs[i]);
        }
    }
}

fn content_length(headers: &Headers) -> (r: Option<Result<u64, ()>>)
    ensures
        r == content_length_of(headers@),
{
    let k = content_length_kw();
    let i = headers.find_from(&k, 0);
    if i >= headers.len() {
        return None;
    }
    let j = headers.find_from(&k, i + 1);
    if j < headers.len() {
        return Some(Err(()));
    }
    match parse_decimal(headers.value_at(i)) {
        Some(n) => Some(Ok(n)),
        None => Some(Err(())),
    }
}

fn chunked_last(headers: &Headers) -> (r: Option<(usize, bool)>)
    ensures
        r is None <==> last_transfer_encoding(headers@) < 0,
        r is Some ==> r->Some_0.0 < headers@.len(),
        r is Some ==> r->Some_0.0 == last_transfer_encoding(headers@) && r->Some_0.1 == is_chunked(
            headers@,
        ),
{
    let k = transfer_encoding_kw();
    match headers.find_last(&k) {
        None => None,
        Some(j) => {
            let v = headers.value_at(j);
            let (a, b) = list_last_range(v);
            let c = chunked_kw();
            Some((j, eq_ignore_case_bytes(&v[a..b], &c)))
        },
    }
}

fn misplaced_chunked(headers: &Headers) -> (r: bool)
    ensures
        r == chunked_misplaced(headers@),
{
    let te = transfer_encoding_kw();
    let c = chunked_kw();
    let last = headers.find_last(&te);
    let ghost j = last_transfer_encoding(headers@);
    let mut k: usize = 0;
    while k < headers.len()
        invariant
            0 <= k <= headers@.len(),
            te@ == kw_transfer_encoding(),
            c@ == kw_chunked(),
            last is Some <==> j >= 0,
            last is Some ==> last->Some_0 == j,
            j == last_transfer_encoding(headers@),
            forall|i: int|
                0 <= i < k ==> !(eq_ignore_case(#[trigger] headers@[i].0, kw_transfer_encoding())
                    && if i == j {
                    list_init_has(headers@[i].1, 0, kw_chunked())
                } else {
                    list_has(headers@[i].1, 0, kw_chunked())
                }),
        decreases headers@.len() - k,
    {
        if eq_ignore_case_bytes(headers.name_at(k), &te) {
            let is_last = match last {
                Some(l) => l == k,
                None => false,
            };
            let found = if is_last {
                list_init_contains(headers.value_at(k), &c)
            } else {
                list_contains(headers.value_at(k), &c)
            };
            if found {
                return true;
            }
        }
        k += 1;
    }
    false
}

fn framing_of(headers: &Headers, fallback: Decoder) -> (r: Result<Decoder, Error>)
    ensures
        r == framing(headers@, fallback),
{
    if misplaced_chunked(headers) {
        return Err(Error::InvalidChunkFraming);
    }
    let cl = content_length(headers);
    let chunked = match chunked_last(headers) {
        Some((_, c)) => c,
        None => false,
    };
    match cl {
        Some(Err(())) => Err(Error::ConflictingContentLength),
        Some(Ok(n)) => if chunked {
            Err(Error::ConflictingContentLength)
        } else {
            Ok(Decoder::Length(n))
        },
        None => if chunked {
            Ok(Decoder::chunked())
        } else {
            Ok(fallback)
        },
    }
}

/// Gives `headers` its outgoing framing (see `outgoing_framing`).
fn frame_outgoing(headers: &mut Headers) -> (r: Result<Encoder, Error>)
    ensures
        match outgoing_framing(old(headers)@) {
            Ok((hs, e)) => r == Result::<Encoder, Error>::Ok(e) && final(headers)@ == hs,
            Err(x) => r == Result::<Encoder, Error>::Err(x) && final(headers)@ == old(headers)@,
        },
{
    match content_length(headers) {
        Some(Ok(n)) => {
            return Ok(Encoder::length(n));
        },
        Some(Err(())) => {
            return Err(Error::ConflictingContentLength);
        },
        None => {},
    }
    if misplaced_chunked(headers) {
        return Err(Error::InvalidChunkFraming);
    }
    match chunked_last(headers) {
        None => {
            let name = transfer_encoding_kw();
            let value = chunked_kw();
            let mut nv: Vec<u8> = Vec::new();
            push_all(&mut nv, &name);
            let mut vv: Vec<u8> = Vec::new();
            push_all(&mut vv, &value);
            headers.append(nv, vv);
        },
        Some((j, true)) => {},
        Some((j, false)) => {
            let mut v: Vec<u8> = Vec::new();
            push_all(&mut v, headers.value_at(j));
            v.push(44);
            v.push(32);
            let c = chunked_kw();
            push_all(&mut v, &c);
            assert(v@ =~= old(headers)@[j as int].1 + seq![44u8, 32] + kw_chunked());
            headers.set_value_at(j, v);
        },
    }
    Ok(Encoder::chunked())
}

/// The side of a connection that receives requests and sends responses.
pub struct ServerTransaction;

/// The side of a connection that sends requests and receives responses.
pub struct ClientTransaction;

/// What both roles share: how an incoming head is parsed and how the framing of
/// the body after it is chosen.
pub trait Http1Transaction {
    /// The subject of the heads this role receives.
    type Incoming: View;

    /// What the bytes at hand come to as an incoming head (see `request_scan`).
    spec fn scan(bytes: Seq<u8>) -> Option<
        Result<(HeadView<<Self::Incoming as View>::V>, int), Error>,
    >;

    /// The framing of the body after an incoming head.
    spec fn body_framing(head: HeadView<<Self::Incoming as View>::V>) -> Result<Decoder, Error>;

    /// Once the bytes at hand decide a head, later bytes do not change it.
    proof fn lemma_scan_extend(s: Seq<u8>, t: Seq<u8>)
        requires
            Self::scan(s) is Some,
        ensures
            Self::scan(s + t) == Self::scan(s),
    ;

    /// A head is decided by its own bytes: a prefix that holds all of them
    /// gives the same result, and a shorter one waits for more.
    proof fn lemma_scan_cut(s: Seq<u8>, k: int)
        requires
            0 <= k <= s.len(),
            Self::scan(s) is Some,
            Self::scan(s)->Some_0 is Ok,
        ensures
            k >= Self::scan(s)->Some_0->Ok_0.1 ==> Self::scan(s.take(k)) == Self::scan(s),
            k < Self::scan(s)->Some_0->Ok_0.1 ==> Self::scan(s.take(k)) is None,
    ;

    /// Parses an incoming head at the start of `bytes`.
    fn parse(bytes: &[u8]) -> (r: ParseResult<Self::Incoming>)
        ensures
            agrees(r, Self::scan(bytes@)),
            r is Ok && r->Ok_0 is Some ==> r->Ok_0->Some_0.1 <= bytes@.len(),
    ;

    /// The framing of the body that follows an incoming head.
    fn decoder(head: &MessageHead<Self::Incoming>) -> (r: Result<Decoder, Error>)
        ensures
            r == Self::body_framing(head@),
    ;
}

impl Http1Transaction for ServerTransaction {
    type Incoming = RequestLine;

    open spec fn scan(bytes: Seq<u8>) -> Option<Result<(HeadView<(Seq<u8>, Seq<u8>)>, int), Error>> {
        request_scan(bytes)
    }

    open spec fn body_framing(head: HeadView<(Seq<u8>, Seq<u8>)>) -> Result<Decoder, Error> {
        request_decoder(head)
    }

    proof fn lemma_scan_extend(s: Seq<u8>, t: Seq<u8>) {
        lemma_request_scan_extend(s, t);
    }

    proof fn lemma_scan_cut(s: Seq<u8>, k: int) {
        lemma_request_scan_cut(s, k);
    }

    fn parse(bytes: &[u8]) -> (r: ParseResult<RequestLine>) {
        parse_request(bytes)
    }

    fn decoder(head: &RequestHead) -> (r: Result<Decoder, Error>) {
        let m: [u8; 4] = [72, 69, 65, 68];
        assert(m@ == method_head());
        if bytes_eq(head.subject.0.as_slice(), &m) {
            Ok(Decoder::none())
        } else {
            framing_of(&head.headers, Decoder::none())
        }
    }
}

impl Http1Transaction for ClientTransaction {
    type Incoming = RawStatus;

    open spec fn scan(bytes: Seq<u8>) -> Option<Result<(HeadView<(u16, Seq<u8>)>, int), Error>> {
        response_scan(bytes)
    }

    open spec fn body_framing(head: HeadView<(u16, Seq<u8>)>) -> Result<Decoder, Error> {
        response_decoder(head)
    }

    proof fn lemma_scan_extend(s: Seq<u8>, t: Seq<u8>) {
        lemma_response_scan_extend(s, t);
    }

    proof fn lemma_scan_cut(s: Seq<u8>, k: int) {
        lemma_response_scan_cut(s, k);
    }

    fn parse(bytes: &[u8]) -> (r: ParseResult<RawStatus>) {
        parse_response(bytes)
    }

    fn decoder(head: &ResponseHead) -> (r: Result<Decoder, Error>) {
        let code = head.subject.0;
        if (code >= 100 && code <= 199) || code == 204 || code == 304 {
            Ok(Decoder::none())
        } else {
            framing_of(&head.headers, Decoder::close())
        }
    }
}

/// Parses an incoming head for the role `T`.
pub fn parse<T: Http1Transaction>(bytes: &[u8]) -> (r: ParseResult<T::Incoming>)
    ensures
        agrees(r, T::scan(bytes@)),
        r is Ok && r->Ok_0 is Some ==> r->Ok_0->Some_0.1 <= bytes@.len(),
{
    T::parse(bytes)
}

impl ServerTransaction {
    /// Completes an outgoing response head and writes it to `dst`: adds `date`
    /// as its Date field when it has none, picks its body framing (see
    /// `response_framing`), and returns the encoder for its body. A broken or
    /// repeated Content-Length is an error, and then nothing is changed or written.
    pub fn encode(head: &mut ResponseHead, date: &[u8], dst: &mut Vec<u8>) -> (r: Result<Encoder, Error>)
        requires
            old(head).subject.0 <= 999,
        ensures
            final(head).version == old(head).version,
            final(head).subject@ == old(head).subject@,
            match response_framing(old(head).headers@, date@) {
                Ok((hs, e)) => r == Result::<Encoder, Error>::Ok(e) && final(head).headers@ == hs
                    && final(dst)@ == old(dst)@ + response_head_bytes(final(head)@),
                Err(x) => r == Result::<Encoder, Error>::Err(x) && final(head).headers@ == old(
                    head).headers@ && final(dst)@ == old(dst)@,
            },
    {
        proof {
            lemma_dated_length(head.headers@, date@);
            lemma_dated_misplaced(head.headers@, date@);
        }
        match content_length(&head.headers) {
            Some(Err(())) => {
                return Err(Error::ConflictingContentLength);
            },
            None => {
                if misplaced_chunked(&head.headers) {
                    return Err(Error::InvalidChunkFraming);
                }
            },
            Some(Ok(_)) => {},
        }
        let dk = date_kw();
        if !head.headers.has(&dk) {
            let mut name: Vec<u8> = Vec::new();
            push_all(&mut name, &dk);
            let mut value: Vec<u8> = Vec::new();
            push_all(&mut value, date);
            head.headers.append(name, value);
        }
        let enc = frame_outgoing(&mut head.headers);
        encode_response_head(head, dst);
        enc
    }
}

impl ClientTransaction {
    /// Completes an outgoing request head and writes it to `dst`: picks its body
    /// framing (see `request_framing`) and returns the encoder for its body. A
    /// broken or repeated Content-Length is an error, and then nothing is
    /// changed or written.
    pub fn encode(head: &mut RequestHead, dst: &mut Vec<u8>) -> (r: Result<Encoder, Error>)
        ensures
            final(head).version == old(head).version,
            final(head).subject@ == old(head).subject@,
            match request_framing(old(head).headers@) {
                Ok((hs, e)) => r == Result::<Encoder, Error>::Ok(e) && final(head).headers@ == hs
                    && final(dst)@ == old(dst)@ + request_head_bytes(final(head)@),
                Err(x) => r == Result::<Encoder, Error>::Err(x) && final(head).headers@ == old(
                    head).headers@ && final(dst)@ == old(dst)@,
            },
    {
        let enc = if content_length(&head.headers).is_none() && chunked_last(&head.headers).is_none() {
            Ok(Encoder::length(0))
        } else {
            frame_outgoing(&mut head.headers)
        };
        if enc.is_ok() {
            encode_request_head(head, dst);
        }
        enc
    }
}

} // verus!
