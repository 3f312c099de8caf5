//! Server responses and their serialization onto the wire.
use vstd::prelude::*;
use crate::bytes::push_all;
use crate::encoder::{Encoder, chunk_bytes, last_chunk_bytes};
use crate::error::Error;
use crate::head::{HttpVersion, MessageHead, RawStatus, ResponseHead, is_field_value, response_head_bytes};
use crate::bytes::{all_digits, eq_ignore_case, is_digit, CR, LF, SP, COMMA, COLON};
use crate::headers::{
    Headers, HeaderSeq, without_named, content_length_kw, kw_content_length, kw_date, kw_chunked,
    kw_transfer_encoding, find_named, last_named, has_named, lemma_find_named, lemma_last_named,
};
use crate::parse::HeadView;
use crate::transaction::{
    ServerTransaction, response_framing, content_length_of, last_transfer_encoding, with_chunked,
    dated, lemma_dated_length, lemma_date_not_length,
};

verus! {

/// The outgoing half of an exchange: a head and, optionally, a body.
/// A new response is `HTTP/1.1 200 OK` with no headers and no body.
pub struct Response {
    head: ResponseHead,
    body: Option<Vec<u8>>,
}

pub type ResponseView = (HeadView<(u16, Seq<u8>)>, Option<Seq<u8>>);

impl View for Response {
    type V = ResponseView;

    closed spec fn view(&self) -> ResponseView {
        (
            self.head@,
            match self.body {
                Some(b) => Some(b@),
                None => None,
            },
        )
    }
}

impl Response {
    pub fn new() -> (r: Response)
        ensures
            r@ == (
                (HttpVersion::Http11, (200u16, seq![79u8, 75]), Seq::<(Seq<u8>, Seq<u8>)>::empty()),
                None::<Seq<u8>>,
            ),
    {
        let mut reason: Vec<u8> = Vec::new();
        reason.push(79);
        reason.push(75);
        let r = Response {
            head: MessageHead {
                version: HttpVersion::Http11,
                subject: RawStatus(200, reason),
                headers: Headers::new(),
            },
            body: None,
        };
        assert(r@.0.1.1 =~= seq![79u8, 75]);
        r
    }

    /// Sets a header: fields of that name (up to case) are replaced by this one, placed last.
    pub fn header(self, name: Vec<u8>, value: Vec<u8>) -> (r: Response)
        ensures
            r@ == (
                (self@.0.0, self@.0.1, without_named(self@.0.2, name@).push((name@, value@))),
                self@.1,
            ),
    {
        let mut s = self;
        s.head.headers.set(name, value);
        s
    }

    pub fn body(self, buf: Vec<u8>) -> (r: Response)
        ensures
            r@ == (self@.0, Some(buf@)),
    {
        let mut s = self;
        s.body = Some(buf);
        s
    }
}

/// The headers of `res` once a response without a body declares `Content-Length: 0`.
pub open spec fn declared_headers(res: ResponseView) -> HeaderSeq {
    if res.1 is None {
        without_named(res.0.2, kw_content_length()).push((kw_content_length(), seq![48u8]))
    } else {
        res.0.2
    }
}

/// The bytes that serialize `res` with `date` as the Date it gets when it has
/// none: a response without a body is declared `Content-Length: 0`; a body
/// goes out as the head's framing says, and must match a declared length.
pub open spec fn response_output(res: ResponseView, date: Seq<u8>) -> Result<Seq<u8>, Error> {
    let (hv, body) = res;
    if hv.1.0 > 999 {
        Err(Error::MalformedStartLine)
    } else {
        match response_framing(declared_headers(res), date) {
            Err(x) => Err(x),
            Ok((hs1, enc)) => {
                let b = match body {
                    Some(b) => b,
                    None => Seq::empty(),
                };
                let head = response_head_bytes((hv.0, hv.1, hs1));
                match enc {
                    Encoder::Length(n) => if b.len() == n {
                        Ok(head + b)
                    } else {
                        Err(Error::BodyLengthMismatch)
                    },
                    _ => Ok(
                        head + (if b.len() == 0 {
                            Seq::empty()
                        } else {
                            chunk_bytes(b)
                        }) + last_chunk_bytes(),
                    ),
                }
            },
        }
    }
}

/// `after` is `before` with the serialization of `res` appended, or, when
/// serialization fails, `before` unchanged.
pub open spec fn serialized(
    res: ResponseView,
    date: Seq<u8>,
    r: Result<(), Error>,
    before: Seq<u8>,
    after: Seq<u8>,
) -> bool {
    match response_output(res, date) {
        Ok(out) => r is Ok && after == before + out,
        Err(x) => r == Result::<(), Error>::Err(x) && after == before,
    }
}

/// A weekday as `%a` writes it: `Sun` to `Sat`.
pub open spec fn is_weekday(s: Seq<u8>) -> bool {
    s == seq![83u8, 117, 110] || s == seq![77u8, 111, 110] || s == seq![84u8, 117, 101] || s
        == seq![87u8, 101, 100] || s == seq![84u8, 104, 117] || s == seq![70u8, 114, 105] || s
        == seq![83u8, 97, 116]
}

/// A month as `%b` writes it: `Jan` to `Dec`.
pub open spec fn is_month(s: Seq<u8>) -> bool {
    s == seq![74u8, 97, 110] || s == seq![70u8, 101, 98] || s == seq![77u8, 97, 114] || s == seq![
        65u8,
        112,
        114,
    ] || s == seq![77u8, 97, 121] || s == seq![74u8, 117, 110] || s == seq![74u8, 117, 108] || s
        == seq![65u8, 117, 103] || s == seq![83u8, 101, 112] || s == seq![79u8, 99, 116] || s
        == seq![78u8, 111, 118] || s == seq![68u8, 101, 99]
}

/// A year as `%Y` writes it: decimal digits, after a minus sign for years before 0.
pub open spec fn is_year(y: Seq<u8>) -> bool {
    y.len() > 0 && (all_digits(y) || (y[0] == 45 && y.len() > 1 && all_digits(y.drop_first())))
}

/// An HTTP-date in the form `Sun, 06 Nov 1994 08:49:37 GMT`: weekday, comma,
/// two-digit day, month, year, two-digit hour, minute and second, `GMT`.
pub open spec fn is_http_date(s: Seq<u8>) -> bool {
    let n = s.len() as int;
    &&& n >= 26
    &&& is_weekday(s.subrange(0, 3))
    &&& s[3] == COMMA && s[4] == SP
    &&& is_digit(s[5]) && is_digit(s[6]) && s[7] == SP
    &&& is_month(s.subrange(8, 11)) && s[11] == SP
    &&& is_year(s.subrange(12, n - 13))
    &&& s[n - 13] == SP
    &&& is_digit(s[n - 12]) && is_digit(s[n - 11]) && s[n - 10] == COLON
    &&& is_digit(s[n - 9]) && is_digit(s[n - 8]) && s[n - 7] == COLON
    &&& is_digit(s[n - 6]) && is_digit(s[n - 5])
    &&& s[n - 4] == SP && s[n - 3] == 71 && s[n - 2] == 77 && s[n - 1] == 84
}

/// An HTTP-date is a header value that reads back unchanged.
pub proof fn lemma_http_date_is_field_value(s: Seq<u8>)
    requires
        is_http_date(s),
    ensures
        s.len() > 0,
        is_field_value(s),
{
    let n = s.len() as int;
    let w = s.subrange(0, 3);
    let m = s.subrange(8, 11);
    let y = s.subrange(12, n - 13);
    assert forall|i: int| 0 <= i < n implies #[trigger] s[i] != CR && s[i] != LF by {
        if i < 3 {
            assert(s[i] == w[i]);
        } else if 8 <= i < 11 {
            assert(s[i] == m[i - 8]);
        } else if 12 <= i < n - 13 {
            assert(s[i] == y[i - 12]);
            if all_digits(y) {
                assert(is_digit(y[i - 12]));
            } else if i > 12 {
                assert(y[i - 12] == y.drop_first()[i - 13]);
                assert(is_digit(y.drop_first()[i - 13]));
            }
        }
    }
    assert(s[0] == w[0]);
}

/// Relies on `time::now_utc` and `time::Tm::rfc822`: the current UTC time
/// formatted `%a, %d %b %Y %T GMT` (`Sun, 06 Nov 1994 08:49:37 GMT`), where
/// `%a` and `%b` are three-letter names, `%d`, `%H`, `%M` and `%S` are two
/// digits, and `%Y` is the year as an integer. The value depends on the clock,
/// so only that form is stated.
#[verifier::external_body]
fn http_date_now() -> (r: Vec<u8>)
    ensures
        is_http_date(r@),
{
    time::now_utc().rfc822().to_string().into_bytes()
}

/// Writes responses onto the wire.
pub struct Serializer;

impl Serializer {
    /// Serializes `res` onto `buf` (see `response_output`), dated now.
    pub fn serialize(&mut self, res: Response, buf: &mut Vec<u8>) -> (r: Result<(), Error>)
        ensures
            exists|date: Seq<u8>|
                is_http_date(date) && serialized(res@, date, r, old(buf)@, final(buf)@),
    {
        let date = http_date_now();
        proof {
            lemma_http_date_is_field_value(date@);
        }
        let r = self.serialize_with_date(res, date.as_slice(), buf);
        assert(serialized(res@, date@, r, old(buf)@, final(buf)@));
        r
    }

    /// Serializes `res` onto `buf` with `date` as its Date when it has none.
    pub fn serialize_with_date(&mut self, res: Response, date: &[u8], buf: &mut Vec<u8>) -> (r:
        Result<(), Error>)
        ensures
            serialized(res@, date@, r, old(buf)@, final(buf)@),
    {
        let Response { mut head, body } = res;
        if head.subject.0 > 999 {
            return Err(Error::MalformedStartLine);
        }
        if body.is_none() {
            let k = content_length_kw();
            let mut name: Vec<u8> = Vec::new();
            push_all(&mut name, &k);
            let mut zero: Vec<u8> = Vec::new();
            zero.push(48);
            assert(zero@ =~= seq![48u8]);
            head.headers.set(name, zero);
        }
        let mut out: Vec<u8> = Vec::new();
        let mut enc = match ServerTransaction::encode(&mut head, date, &mut out) {
            Err(x) => {
                return Err(x);
            },
            Ok(e) => e,
        };
        let b: Vec<u8> = match body {
            Some(b) => b,
            None => Vec::new(),
        };
        match enc.encode(b.as_slice(), &mut out) {
            Err(x) => {
                return Err(x);
            },
            Ok(_) => {},
        }
        match enc.end(&mut out) {
            Err(x) => {
                return Err(x);
            },
            Ok(_) => {},
        }
        push_all(buf, out.as_slice());
        Ok(())
    }
}

// ---- laws ----

proof fn lemma_absent(hs: HeaderSeq, n: Seq<u8>)
    requires
        !has_named(hs, n),
    ensures
        find_named(hs, n, 0) == hs.len(),
        last_named(hs, n, hs.len() as int) == -1,
{
    lemma_find_named(hs, n, 0);
    lemma_last_named(hs, n, hs.len() as int);
    if find_named(hs, n, 0) < hs.len() {
        assert(eq_ignore_case(hs[find_named(hs, n, 0)].0, n));
    }
    if last_named(hs, n, hs.len() as int) >= 0 {
        assert(eq_ignore_case(hs[last_named(hs, n, hs.len() as int)].0, n));
    }
}

/// A declared length is trusted: a response with a body whose one
/// Content-Length field gives the body's length goes out as its head (dated
/// when it had no Date) and then the body as it is, with no chunked framing.
pub proof fn lemma_declared_length_unframed(res: ResponseView, date: Seq<u8>, n: u64)
    requires
        res.0.1.0 <= 999,
        res.1 is Some,
        res.1->Some_0.len() == n,
        content_length_of(res.0.2) == Some(Ok::<u64, ()>(n)),
    ensures
        response_output(res, date) == Ok::<Seq<u8>, Error>(
            response_head_bytes((res.0.0, res.0.1, dated(res.0.2, date))) + res.1->Some_0,
        ),
{
    lemma_dated_length(res.0.2, date);
    assert(response_framing(res.0.2, date) == Ok::<(HeaderSeq, Encoder), Error>((dated(res.0.2, date), Encoder::Length(n))));
}

/// A body without a declared length is chunked: a response with a non-empty body
/// and neither a Content-Length nor a Transfer-Encoding field goes out with
/// `Transfer-Encoding: chunked` added after its fields (and its Date, when it
/// had none), then its body as one chunk, then the last chunk.
pub proof fn lemma_undeclared_length_chunked(res: ResponseView, date: Seq<u8>)
    requires
        res.0.1.0 <= 999,
        res.1 is Some,
        res.1->Some_0.len() > 0,
        !has_named(res.0.2, kw_content_length()),
        !has_named(res.0.2, kw_transfer_encoding()),
    ensures
        response_output(res, date) == Ok::<Seq<u8>, Error>(
            response_head_bytes(
                (
                    res.0.0,
                    res.0.1,
                    dated(res.0.2, date).push((kw_transfer_encoding(), kw_chunked())),
                ),
            ) + chunk_bytes(res.1->Some_0) + last_chunk_bytes(),
        ),
{
    let hs = res.0.2;
    let h1 = dated(hs, date);
    lemma_date_not_length();
    assert(!has_named(h1, kw_content_length())) by {
        if has_named(h1, kw_content_length()) {
            let k = choose|k: int| 0 <= k < h1.len() && eq_ignore_case(#[trigger] h1[k].0, kw_content_length());
            if k < hs.len() {
                assert(h1[k] == hs[k]);
            }
        }
    }
    assert(!has_named(h1, kw_transfer_encoding())) by {
        if has_named(h1, kw_transfer_encoding()) {
            let k = choose|k: int| 0 <= k < h1.len() && eq_ignore_case(#[trigger] h1[k].0, kw_transfer_encoding());
            if k < hs.len() {
                assert(h1[k] == hs[k]);
            }
        }
    }
    lemma_absent(h1, kw_content_length());
    lemma_absent(h1, kw_transfer_encoding());
    assert(content_length_of(h1) is None);
    assert(last_transfer_encoding(h1) == -1);
    assert(with_chunked(h1) == h1.push((kw_transfer_encoding(), kw_chunked())));
}

} // verus!
