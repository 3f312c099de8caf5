//! Message heads, their wire form, and the keep-alive rule.
use vstd::prelude::*;
use crate::bytes::{is_ws, push_all, CR, LF, SP, COLON};
use crate::headers::{Headers, HeaderSeq, connection_has, kw_keep_alive, kw_close, keep_alive_kw, close_kw};

verus! {

#[derive(PartialEq, Eq, Structural, Clone, Copy, Debug)]
pub enum HttpVersion {
    Http10,
    Http11,
}

/// The request line: method and request target, as raw bytes.
pub struct RequestLine(pub Vec<u8>, pub Vec<u8>);

/// The status code and reason phrase of a response.
pub struct RawStatus(pub u16, pub Vec<u8>);

/// A start line's subject, plus the version and the headers.
pub struct MessageHead<S> {
    pub version: HttpVersion,
    pub subject: S,
    pub headers: Headers,
}

pub type RequestHead = MessageHead<RequestLine>;

pub type ResponseHead = MessageHead<RawStatus>;

impl View for RequestLine {
    type V = (Seq<u8>, Seq<u8>);

    open spec fn view(&self) -> (Seq<u8>, Seq<u8>) {
        (self.0@, self.1@)
    }
}

impl View for RawStatus {
    type V = (u16, Seq<u8>);

    open spec fn view(&self) -> (u16, Seq<u8>) {
        (self.0, self.1@)
    }
}

impl<S: View> View for MessageHead<S> {
    type V = (HttpVersion, S::V, HeaderSeq);

    open spec fn view(&self) -> (HttpVersion, S::V, HeaderSeq) {
        (self.version, self.subject@, self.headers@)
    }
}

impl Default for RawStatus {
    fn default() -> (r: RawStatus)
        ensures
            r@ == (200u16, seq![79u8, 75]),
    {
        RawStatus(200, vec![79, 75])
    }
}

impl RawStatus {
    pub fn new(code: u16, reason: Vec<u8>) -> (r: RawStatus)
        ensures
            r@ == (code, reason@),
    {
        RawStatus(code, reason)
    }
}

impl RequestLine {
    pub fn new(method: Vec<u8>, target: Vec<u8>) -> (r: RequestLine)
        ensures
            r@ == (method@, target@),
    {
        RequestLine(method, target)
    }
}

impl<S> MessageHead<S> {
    pub fn new(version: HttpVersion, subject: S, headers: Headers) -> (r: MessageHead<S>)
        ensures
            r.version == version,
            r.subject == subject,
            r.headers == headers,
    {
        MessageHead { version, subject, headers }
    }

    /// Whether the connection may carry another exchange after this message.
    pub fn should_keep_alive(&self) -> (r: bool)
        ensures
            r == keep_alive(self.version, self.headers@),
    {
        should_keep_alive(self.version, &self.headers)
    }
}

/// HTTP/1.0 closes unless a Connection field lists keep-alive; HTTP/1.1 stays
/// open unless a Connection field lists close.
pub open spec fn keep_alive(version: HttpVersion, hs: HeaderSeq) -> bool {
    match version {
        HttpVersion::Http10 => connection_has(hs, kw_keep_alive()),
        HttpVersion::Http11 => !connection_has(hs, kw_close()),
    }
}

/// Checks if a connection should be kept alive.
pub fn should_keep_alive(version: HttpVersion, headers: &Headers) -> (r: bool)
    ensures
        r == keep_alive(version, headers@),
{
    match version {
        HttpVersion::Http10 => {
            let k = keep_alive_kw();
            headers.connection_lists(&k)
        },
        HttpVersion::Http11 => {
            let k = close_kw();
            !headers.connection_lists(&k)
        },
    }
}

// ---- the wire form of a head ----

pub open spec fn crlf() -> Seq<u8> {
    seq![CR, LF]
}

pub open spec fn version_bytes(v: HttpVersion) -> Seq<u8> {
    match v {
        HttpVersion::Http10 => seq![72u8, 84, 84, 80, 47, 49, 46, 48],
        HttpVersion::Http11 => seq![72u8, 84, 84, 80, 47, 49, 46, 49],
    }
}

/// A byte that may stand in a header name or a method: visible ASCII but the colon.
pub open spec fn is_token_byte(b: u8) -> bool {
    33 <= b && b <= 126 && b != COLON
}

pub open spec fn is_token(s: Seq<u8>) -> bool {
    s.len() > 0 && forall|i: int| 0 <= i < s.len() ==> is_token_byte(#[trigger] s[i])
}

/// A request target: visible ASCII, at least one byte.
pub open spec fn is_target(s: Seq<u8>) -> bool {
    s.len() > 0 && forall|i: int| 0 <= i < s.len() ==> 33 <= #[trigger] s[i] && s[i] <= 126
}

/// Text that may fill the rest of a line: no CR, no LF.
pub open spec fn is_line_text(s: Seq<u8>) -> bool {
    forall|i: int| 0 <= i < s.len() ==> #[trigger] s[i] != CR && s[i] != LF
}

/// A header value that reads back unchanged: line text without surrounding whitespace.
pub open spec fn is_field_value(v: Seq<u8>) -> bool {
    is_line_text(v) && (v.len() > 0 ==> !is_ws(v[0]) && !is_ws(v.last()))
}

pub open spec fn valid_fields(hs: HeaderSeq) -> bool {
    forall|i: int| 0 <= i < hs.len() ==> is_token(#[trigger] hs[i].0) && is_field_value(hs[i].1)
}

pub open spec fn valid_request_head(h: (HttpVersion, (Seq<u8>, Seq<u8>), HeaderSeq)) -> bool {
    is_token(h.1.0) && is_target(h.1.1) && valid_fields(h.2)
}

pub open spec fn valid_response_head(h: (HttpVersion, (u16, Seq<u8>), HeaderSeq)) -> bool {
    100 <= h.1.0 <= 999 && is_line_text(h.1.1) && valid_fields(h.2)
}

/// One header line, `Name: value` and CRLF.
pub open spec fn field_bytes(f: (Seq<u8>, Seq<u8>)) -> Seq<u8> {
    f.0 + seq![COLON, SP] + f.1 + crlf()
}

pub open spec fn fields_bytes(hs: HeaderSeq) -> Seq<u8>
    decreases hs.len(),
{
    if hs.len() == 0 {
        Seq::empty()
    } else {
        field_bytes(hs[0]) + fields_bytes(hs.drop_first())
    }
}

/// The three decimal digits of a status code below 1000.
pub open spec fn status_digits(code: u16) -> Seq<u8> {
    seq![(48 + code / 100) as u8, (48 + (code / 10) % 10) as u8, (48 + code % 10) as u8]
}

pub open spec fn request_line_bytes(v: HttpVersion, rl: (Seq<u8>, Seq<u8>)) -> Seq<u8> {
    rl.0 + seq![SP] + rl.1 + seq![SP] + version_bytes(v)
}

pub open spec fn status_line_bytes(v: HttpVersion, st: (u16, Seq<u8>)) -> Seq<u8> {
    version_bytes(v) + seq![SP] + status_digits(st.0) + seq![SP] + st.1
}

pub open spec fn request_head_bytes(h: (HttpVersion, (Seq<u8>, Seq<u8>), HeaderSeq)) -> Seq<u8> {
    request_line_bytes(h.0, h.1) + crlf() + fields_bytes(h.2) + crlf()
}

pub open spec fn response_head_bytes(h: (HttpVersion, (u16, Seq<u8>), HeaderSeq)) -> Seq<u8> {
    status_line_bytes(h.0, h.1) + crlf() + fields_bytes(h.2) + crlf()
}

pub proof fn lemma_fields_bytes_push(hs: HeaderSeq, f: (Seq<u8>, Seq<u8>))
    ensures
        fields_bytes(hs.push(f)) == fields_bytes(hs) + field_bytes(f),
    decreases hs.len(),
{
    if hs.len() == 0 {
        assert(hs.push(f).drop_first() =~= Seq::<(Seq<u8>, Seq<u8>)>::empty());
        assert(hs.push(f)[0] == f);
        assert(fields_bytes(hs.push(f).drop_first()) == Seq::<u8>::empty());
        assert(fields_bytes(hs.push(f)) =~= field_bytes(f));
    } else {
        assert(hs.push(f).drop_first() =~= hs.drop_first().push(f));
        lemma_fields_bytes_push(hs.drop_first(), f);
        assert(hs.push(f)[0] == hs[0]);
        assert(fields_bytes(hs.push(f)) =~= fields_bytes(hs) + field_bytes(f));
    }
}

pub fn push_version(v: HttpVersion, dst: &mut Vec<u8>)
    ensures
        final(dst)@ == old(dst)@ + version_bytes(v),
{
    let b: [u8; 8] = match v {
        HttpVersion::Http10 => [72, 84, 84, 80, 47, 49, 46, 48],
        HttpVersion::Http11 => [72, 84, 84, 80, 47, 49, 46, 49],
    };
    push_all(dst, &b);
}

pub fn push_crlf(dst: &mut Vec<u8>)
    ensures
        final(dst)@ == old(dst)@ + crlf(),
{
    dst.push(CR);
    dst.push(LF);
    assert(final(dst)@ =~= old(dst)@ + crlf());
}

/// Appends every header line, in order.
pub fn push_fields(headers: &Headers, dst: &mut Vec<u8>)
    ensures
        final(dst)@ == old(dst)@ + fields_bytes(headers@),
{
    let mut i: usize = 0;
    while i < headers.len()
        invariant
            0 <= i <= headers@.len(),
            dst@ == old(dst)@ + fields_bytes(headers@.take(i as int)),
        decreases headers@.len() - i,
    {
        let ghost before = dst@;
        push_all(dst, headers.name_at(i));
        dst.push(COLON);
        dst.push(SP);
        push_all(dst, headers.value_at(i));
        push_crlf(dst);
        proof {
            assert(headers@.take(i as int + 1) =~= headers@.take(i as int).push(headers@[i as int]));
            lemma_fields_bytes_push(headers@.take(i as int), headers@[i as int]);
            assert(dst@ =~= before + field_bytes(headers@[i as int]));
        }
        i += 1;
    }
    assert(headers@.take(headers@.len() as int) =~= headers@);
}

/// Appends the wire form of a request head.
pub fn encode_request_head(head: &RequestHead, dst: &mut Vec<u8>)
    ensures
        final(dst)@ == old(dst)@ + request_head_bytes(head@),
{
    push_all(dst, head.subject.0.as_slice());
    dst.push(SP);
    push_all(dst, head.subject.1.as_slice());
    dst.push(SP);
    push_version(head.version, dst);
    push_crlf(dst);
    push_fields(&head.headers, dst);
    push_crlf(dst);
    assert(final(dst)@ =~= old(dst)@ + request_head_bytes(head@));
}

/// Appends the wire form of a response head.
pub fn encode_response_head(head: &ResponseHead, dst: &mut Vec<u8>)
    requires
        head.subject.0 <= 999,
    ensures
        final(dst)@ == old(dst)@ + response_head_bytes(head@),
{
    push_version(head.version, dst);
    dst.push(SP);
    let code = head.subject.0;
    dst.push((48 + code / 100) as u8);
    dst.push((48 + (code / 10) % 10) as u8);
    dst.push((48 + code % 10) as u8);
    dst.push(SP);
    push_all(dst, head.subject.1.as_slice());
    push_crlf(dst);
    push_fields(&head.headers, dst);
    push_crlf(dst);
    assert(final(dst)@ =~= old(dst)@ + response_head_bytes(head@));
}

} // verus!
