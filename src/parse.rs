//! Incremental parsing of request and response heads.
//!
//! The grammar is stated by the spec functions below over the buffered bytes;
//! the parser returns exactly what they say: `Ok(None)` while the head is cut
//! off, an error once a complete line breaks the grammar, and otherwise the head
//! and the offset just past its blank line.
use vstd::prelude::*;
use crate::bytes::{
    lemma_find_either_extend, find_either, find_either_at, is_digit, lemma_find_either, trim_range, trimmed, copy_range,
    CR, LF, SP, COLON,
};
use crate::error::Error;
use crate::head::{
    HttpVersion, MessageHead, RawStatus, RequestLine, is_target,
    is_token, is_token_byte, version_bytes,
};
use crate::headers::{Headers, HeaderSeq};

verus! {

pub open spec fn version_of(v: Seq<u8>) -> Option<HttpVersion> {
    if v == version_bytes(HttpVersion::Http10) {
        Some(HttpVersion::Http10)
    } else if v == version_bytes(HttpVersion::Http11) {
        Some(HttpVersion::Http11)
    } else {
        None
    }
}

/// A header line without its CRLF: a token name, a colon, and a value whose
/// surrounding whitespace is not part of it.
pub open spec fn parse_field(l: Seq<u8>) -> Option<(Seq<u8>, Seq<u8>)> {
    let c = find_either(l, 0, COLON, COLON);
    if c < l.len() && is_token(l.subrange(0, c)) {
        Some((l.subrange(0, c), trimmed(l, c + 1, l.len() as int)))
    } else {
        None
    }
}

/// `METHOD SP target SP version`, without its CRLF.
pub open spec fn parse_request_line(l: Seq<u8>) -> Option<(HttpVersion, (Seq<u8>, Seq<u8>))> {
    let a = find_either(l, 0, SP, SP);
    let b = find_either(l, a + 1, SP, SP);
    if a < l.len() && b < l.len() && is_token(l.subrange(0, a)) && is_target(l.subrange(a + 1, b))
        && version_of(l.subrange(b + 1, l.len() as int)) is Some {
        Some(
            (
                version_of(l.subrange(b + 1, l.len() as int))->Some_0,
                (l.subrange(0, a), l.subrange(a + 1, b)),
            ),
        )
    } else {
        None
    }
}

pub open spec fn three_digits(x: u8, y: u8, z: u8) -> u16 {
    ((x - 48) * 100 + (y - 48) * 10 + (z - 48)) as u16
}

/// `version SP status SP reason`, without its CRLF; the status is three digits,
/// the first not zero, and a missing reason reads as empty.
pub open spec fn parse_status_line(l: Seq<u8>) -> Option<(HttpVersion, (u16, Seq<u8>))> {
    let a = find_either(l, 0, SP, SP);
    if a < l.len() && version_of(l.subrange(0, a)) is Some && a + 4 <= l.len() && is_digit(
        l[a + 1],
    ) && l[a + 1] != 48 && is_digit(l[a + 2]) && is_digit(l[a + 3]) && (a + 4 == l.len() || l[a
        + 4] == SP) {
        Some(
            (
                version_of(l.subrange(0, a))->Some_0,
                (
                    three_digits(l[a + 1], l[a + 2], l[a + 3]),
                    if a + 4 == l.len() {
                        Seq::empty()
                    } else {
                        l.subrange(a + 5, l.len() as int)
                    },
                ),
            ),
        )
    } else {
        None
    }
}

/// Where the line that starts at `i` stops: its first CR or LF.
pub open spec fn line_end(s: Seq<u8>, i: int) -> int {
    find_either(s, i, CR, LF)
}

/// The input ends before the line at `i` has its CRLF.
pub open spec fn line_partial(s: Seq<u8>, i: int) -> bool {
    let e = line_end(s, i);
    e >= s.len() || (s[e] == CR && e + 1 >= s.len())
}

/// The line at `i` ends in a bare LF or in a CR not followed by LF.
pub open spec fn line_broken(s: Seq<u8>, i: int) -> bool {
    let e = line_end(s, i);
    e < s.len() && (s[e] == LF || (e + 1 < s.len() && s[e + 1] != LF))
}

/// What the header lines from `i` on come to, after the fields `acc`:
/// `None` while cut off, else the fields and the offset past the blank line,
/// or the error of the first line that breaks the grammar.
pub open spec fn parse_fields(s: Seq<u8>, i: int, acc: HeaderSeq) -> Option<
    Result<(HeaderSeq, int), Error>,
>
    decreases s.len() - i,
    via parse_fields_decreases
{
    if line_partial(s, i) {
        None
    } else if line_broken(s, i) {
        Some(Err(Error::MalformedHeader))
    } else if line_end(s, i) == i {
        Some(Ok((acc, i + 2)))
    } else {
        match parse_field(s.subrange(i, line_end(s, i))) {
            None => Some(Err(Error::MalformedHeader)),
            Some(f) => parse_fields(s, line_end(s, i) + 2, acc.push(f)),
        }
    }
}

#[via_fn]
proof fn parse_fields_decreases(s: Seq<u8>, i: int, acc: HeaderSeq) {
    if 0 <= i <= s.len() {
        lemma_find_either(s, i, CR, LF);
    }
}

/// The view of a parsed head: version, subject, headers.
pub type HeadView<V> = (HttpVersion, V, HeaderSeq);

/// What a request head at the start of `s` comes to (see `parse_fields`).
pub open spec fn request_scan(s: Seq<u8>) -> Option<
    Result<(HeadView<(Seq<u8>, Seq<u8>)>, int), Error>,
> {
    if line_partial(s, 0) {
        None
    } else if line_broken(s, 0) {
        Some(Err(Error::MalformedStartLine))
    } else {
        match parse_request_line(s.subrange(0, line_end(s, 0))) {
            None => Some(Err(Error::MalformedStartLine)),
            Some((v, rl)) => match parse_fields(s, line_end(s, 0) + 2, Seq::empty()) {
                None => None,
                Some(Err(x)) => Some(Err(x)),
                Some(Ok((hs, n))) => Some(Ok(((v, rl, hs), n))),
            },
        }
    }
}

/// What a response head at the start of `s` comes to (see `parse_fields`).
pub open spec fn response_scan(s: Seq<u8>) -> Option<Result<(HeadView<(u16, Seq<u8>)>, int), Error>> {
    if line_partial(s, 0) {
        None
    } else if line_broken(s, 0) {
        Some(Err(Error::MalformedStartLine))
    } else {
        match parse_status_line(s.subrange(0, line_end(s, 0))) {
            None => Some(Err(Error::MalformedStartLine)),
            Some((v, st)) => match parse_fields(s, line_end(s, 0) + 2, Seq::empty()) {
                None => None,
                Some(Err(x)) => Some(Err(x)),
                Some(Ok((hs, n))) => Some(Ok(((v, st, hs), n))),
            },
        }
    }
}

pub type ParseResult<S> = Result<Option<(MessageHead<S>, usize)>, Error>;

/// `r` is what the scan `sc` says.
pub open spec fn agrees<S: View>(
    r: ParseResult<S>,
    sc: Option<Result<(HeadView<S::V>, int), Error>>,
) -> bool {
    match sc {
        None => r == ParseResult::<S>::Ok(None),
        Some(Err(x)) => r == ParseResult::<S>::Err(x),
        Some(Ok((hv, n))) => r is Ok && r->Ok_0 is Some && r->Ok_0->Some_0.0@ == hv
            && r->Ok_0->Some_0.1 == n,
    }
}

enum Line {
    Partial,
    Broken,
    Complete(usize),
}

fn scan_line(s: &[u8], i: usize) -> (r: Line)
    requires
        i <= s@.len(),
    ensures
        r is Partial <==> line_partial(s@, i as int),
        r is Broken <==> !line_partial(s@, i as int) && line_broken(s@, i as int),
        r is Complete ==> r->Complete_0 == line_end(s@, i as int) && i <= r->Complete_0
            && r->Complete_0 + 2 <= s.len(),
{
    let e = find_either_at(s, i, CR, LF);
    proof {
        lemma_find_either(s@, i as int, CR, LF);
    }
    if e >= s.len() {
        Line::Partial
    } else if s[e] == LF {
        Line::Broken
    } else if e + 1 >= s.len() {
        Line::Partial
    } else if s[e + 1] != LF {
        Line::Broken
    } else {
        Line::Complete(e)
    }
}

pub fn bytes_eq(a: &[u8], b: &[u8]) -> (r: bool)
    ensures
        r == (a@ == b@),
{
    if a.len() != b.len() {
        return false;
    }
    let mut i: usize = 0;
    while i < a.len()
        invariant
            a@.len() == b@.len(),
            0 <= i <= a@.len(),
            forall|k: int| 0 <= k < i ==> a@[k] == b@[k],
        decreases a@.len() - i,
    {
        if a[i] != b[i] {
            return false;
        }
        i += 1;
    }
    assert(a@ =~= b@);
    true
}

fn version_from(v: &[u8]) -> (r: Option<HttpVersion>)
    ensures
        r == version_of(v@),
{
    let k10: [u8; 8] = [72, 84, 84, 80, 47, 49, 46, 48];
    let k11: [u8; 8] = [72, 84, 84, 80, 47, 49, 46, 49];
    assert(k10@ == version_bytes(HttpVersion::Http10));
    assert(k11@ == version_bytes(HttpVersion::Http11));
    if bytes_eq(v, &k10) {
        Some(HttpVersion::Http10)
    } else if bytes_eq(v, &k11) {
        Some(HttpVersion::Http11)
    } else {
        None
    }
}

fn token_check(s: &[u8]) -> (r: bool)
    ensures
        r == is_token(s@),
{
    if s.len() == 0 {
        return false;
    }
    let mut i: usize = 0;
    while i < s.len()
        invariant
            0 <= i <= s@.len(),
            forall|k: int| 0 <= k < i ==> is_token_byte(#[trigger] s@[k]),
        decreases s@.len() - i,
    {
        if s[i] < 33 || s[i] > 126 || s[i] == COLON {
            return false;
        }
        i += 1;
    }
    true
}

fn target_check(s: &[u8]) -> (r: bool)
    ensures
        r == is_target(s@),
{
    if s.len() == 0 {
        return false;
    }
    let mut i: usize = 0;
    while i < s.len()
        invariant
            0 <= i <= s@.len(),
            forall|k: int| 0 <= k < i ==> 33 <= #[trigger] s@[k] && s@[k] <= 126,
        decreases s@.len() - i,
    {
        if s[i] < 33 || s[i] > 126 {
            return false;
        }
        i += 1;
    }
    true
}

fn field_from(l: &[u8]) -> (r: Option<(Vec<u8>, Vec<u8>)>)
    ensures
        r is None <==> parse_field(l@) is None,
        r is Some ==> (r->Some_0.0@, r->Some_0.1@) == parse_field(l@)->Some_0,
{
    let c = find_either_at(l, 0, COLON, COLON);
    if c >= l.len() || !token_check(&l[0..c]) {
        return None;
    }
    let (a, e) = trim_range(l, c + 1, l.len());
    let name = copy_range(l, 0, c);
    let value = copy_range(l, a, e);
    Some((name, value))
}

fn request_line_from(l: &[u8]) -> (r: Option<(HttpVersion, RequestLine)>)
    ensures
        r is None <==> parse_request_line(l@) is None,
        r is Some ==> (r->Some_0.0, r->Some_0.1@) == parse_request_line(l@)->Some_0,
{
    let a = find_either_at(l, 0, SP, SP);
    if a >= l.len() {
        return None;
    }
    let b = find_either_at(l, a + 1, SP, SP);
    if b >= l.len() || !token_check(&l[0..a]) || !target_check(&l[a + 1..b]) {
        return None;
    }
    match version_from(&l[b + 1..l.len()]) {
        None => None,
        Some(v) => Some((v, RequestLine(copy_range(l, 0, a), copy_range(l, a + 1, b)))),
    }
}

fn status_line_from(l: &[u8]) -> (r: Option<(HttpVersion, RawStatus)>)
    ensures
        r is None <==> parse_status_line(l@) is None,
        r is Some ==> (r->Some_0.0, r->Some_0.1@) == parse_status_line(l@)->Some_0,
{
    let a = find_either_at(l, 0, SP, SP);
    if a >= l.len() || l.len() - a < 4 {
        return None;
    }
    let v = match version_from(&l[0..a]) {
        None => {
            return None;
        },
        Some(v) => v,
    };
    let x = l[a + 1];
    let y = l[a + 2];
    let z = l[a + 3];
    if x < 49 || x > 57 || y < 48 || y > 57 || z < 48 || z > 57 {
        return None;
    }
    let code: u16 = ((x - 48) as u16) * 100 + ((y - 48) as u16) * 10 + ((z - 48) as u16);
    if a + 4 == l.len() {
        let r = RawStatus(code, Vec::new());
        assert(r.1@ =~= Seq::<u8>::empty());
        Some((v, r))
    } else if l[a + 4] == SP {
        Some((v, RawStatus(code, copy_range(l, a + 5, l.len()))))
    } else {
        None
    }
}

/// Parses the header lines from `i` on (see `parse_fields`).
fn fields_from(s: &[u8], start: usize) -> (r: Result<Option<(Headers, usize)>, Error>)
    requires
        start <= s@.len(),
    ensures
        match parse_fields(s@, start as int, Seq::empty()) {
            None => r == Result::<Option<(Headers, usize)>, Error>::Ok(None),
            Some(Err(x)) => r == Result::<Option<(Headers, usize)>, Error>::Err(x),
            Some(Ok((hs, n))) => r is Ok && r->Ok_0 is Some && r->Ok_0->Some_0.0@ == hs
                && r->Ok_0->Some_0.1 == n,
        },
        r is Ok && r->Ok_0 is Some ==> r->Ok_0->Some_0.1 <= s@.len(),
{
    let mut headers = Headers::new();
    let mut i = start;
    loop
        invariant
            i <= s@.len(),
            parse_fields(s@, i as int, headers@) == parse_fields(s@, start as int, Seq::empty()),
        decreases s@.len() - i,
    {
        match scan_line(s, i) {
            Line::Partial => {
                return Ok(None);
            },
            Line::Broken => {
                return Err(Error::MalformedHeader);
            },
            Line::Complete(e) => {
                if e == i {
                    return Ok(Some((headers, e + 2)));
                }
                match field_from(&s[i..e]) {
                    None => {
                        return Err(Error::MalformedHeader);
                    },
                    Some((name, value)) => {
                        headers.append(name, value);
                        i = e + 2;
                    },
                }
            },
        }
    }
}

/// Parses a request head at the start of `s`.
pub fn parse_request(s: &[u8]) -> (r: ParseResult<RequestLine>)
    ensures
        r is Ok && r->Ok_0 is Some ==> r->Ok_0->Some_0.1 <= s@.len(),
        agrees(r, request_scan(s@)),
{
    match scan_line(s, 0) {
        Line::Partial => Ok(None),
        Line::Broken => Err(Error::MalformedStartLine),
        Line::Complete(e) => match request_line_from(&s[0..e]) {
            None => Err(Error::MalformedStartLine),
            Some((version, subject)) => match fields_from(s, e + 2) {
                Ok(None) => Ok(None),
                Err(x) => Err(x),
                Ok(Some((headers, n))) => Ok(Some((MessageHead { version, subject, headers }, n))),
            },
        },
    }
}

/// Parses a response head at the start of `s`.
pub fn parse_response(s: &[u8]) -> (r: ParseResult<RawStatus>)
    ensures
        r is Ok && r->Ok_0 is Some ==> r->Ok_0->Some_0.1 <= s@.len(),
        agrees(r, response_scan(s@)),
{
    match scan_line(s, 0) {
        Line::Partial => Ok(None),
        Line::Broken => Err(Error::MalformedStartLine),
        Line::Complete(e) => match status_line_from(&s[0..e]) {
            None => Err(Error::MalformedStartLine),
            Some((version, subject)) => match fields_from(s, e + 2) {
                Ok(None) => Ok(None),
                Err(x) => Err(x),
                Ok(Some((headers, n))) => Ok(Some((MessageHead { version, subject, headers }, n))),
            },
        },
    }
}

// ---- laws ----

proof fn lemma_line_extend(s: Seq<u8>, t: Seq<u8>, i: int)
    requires
        0 <= i <= s.len(),
        !line_partial(s, i),
    ensures
        line_end(s + t, i) == line_end(s, i),
        !line_partial(s + t, i),
        line_broken(s + t, i) == line_broken(s, i),
        line_end(s, i) < s.len(),
        !line_broken(s, i) ==> line_end(s, i) + 2 <= s.len() && (s + t).subrange(i, line_end(s, i))
            == s.subrange(i, line_end(s, i)),
{
    lemma_find_either(s, i, CR, LF);
    lemma_find_either_extend(s, t, i, CR, LF);
    let e = line_end(s, i);
    assert((s + t)[e] == s[e]);
    if e + 1 < s.len() {
        assert((s + t)[e + 1] == s[e + 1]);
    }
    if !line_broken(s, i) {
        assert((s + t).subrange(i, e) =~= s.subrange(i, e));
    }
}

proof fn lemma_fields_extend(s: Seq<u8>, t: Seq<u8>, i: int, acc: HeaderSeq)
    requires
        0 <= i <= s.len(),
        parse_fields(s, i, acc) is Some,
    ensures
        parse_fields(s + t, i, acc) == parse_fields(s, i, acc),
    decreases s.len() - i,
{
    lemma_line_extend(s, t, i);
    if !line_broken(s, i) && line_end(s, i) != i {
        let e = line_end(s, i);
        lemma_find_either(s, i, CR, LF);
        if let Some(f) = parse_field(s.subrange(i, e)) {
            lemma_fields_extend(s, t, e + 2, acc.push(f));
        }
    }
}

/// Fill-size independence: once the bytes at hand decide a request head, as
/// complete or as malformed, bytes that arrive later do not change the result.
/// Feeding a message one byte at a time therefore ends in the same head and
/// consumed length as feeding it all at once.
pub proof fn lemma_request_scan_extend(s: Seq<u8>, t: Seq<u8>)
    requires
        request_scan(s) is Some,
    ensures
        request_scan(s + t) == request_scan(s),
{
    lemma_line_extend(s, t, 0);
    if !line_broken(s, 0) {
        let e = line_end(s, 0);
        if parse_request_line(s.subrange(0, e)) is Some {
            lemma_fields_extend(s, t, e + 2, Seq::empty());
        }
    }
}

/// Fill-size independence for response heads (see `lemma_request_scan_extend`).
pub proof fn lemma_response_scan_extend(s: Seq<u8>, t: Seq<u8>)
    requires
        response_scan(s) is Some,
    ensures
        response_scan(s + t) == response_scan(s),
{
    lemma_line_extend(s, t, 0);
    if !line_broken(s, 0) {
        let e = line_end(s, 0);
        if parse_status_line(s.subrange(0, e)) is Some {
            lemma_fields_extend(s, t, e + 2, Seq::empty());
        }
    }
}

proof fn lemma_find_either_take(s: Seq<u8>, i: int, k: int, x: u8, y: u8)
    requires
        0 <= i <= k <= s.len(),
    ensures
        find_either(s.take(k), i, x, y) == if find_either(s, i, x, y) < k {
            find_either(s, i, x, y)
        } else {
            k
        },
    decreases k - i,
{
    lemma_find_either(s, i, x, y);
    if i < k {
        assert(s.take(k)[i] == s[i]);
        if s[i] != x && s[i] != y {
            lemma_find_either_take(s, i + 1, k, x, y);
        }
    }
}

proof fn lemma_fields_bound(s: Seq<u8>, i: int, acc: HeaderSeq)
    requires
        0 <= i,
        parse_fields(s, i, acc) is Some,
        parse_fields(s, i, acc)->Some_0 is Ok,
    ensures
        i + 2 <= parse_fields(s, i, acc)->Some_0->Ok_0.1 <= s.len(),
    decreases s.len() - i,
{
    lemma_find_either(s, i, CR, LF);
    let e = line_end(s, i);
    if e != i {
        if let Some(f) = parse_field(s.subrange(i, e)) {
            lemma_fields_bound(s, e + 2, acc.push(f));
        }
    }
}

proof fn lemma_fields_cut(s: Seq<u8>, i: int, acc: HeaderSeq, k: int)
    requires
        0 <= i <= k <= s.len(),
        parse_fields(s, i, acc) is Some,
        parse_fields(s, i, acc)->Some_0 is Ok,
    ensures
        k >= parse_fields(s, i, acc)->Some_0->Ok_0.1 ==> parse_fields(s.take(k), i, acc)
            == parse_fields(s, i, acc),
        k < parse_fields(s, i, acc)->Some_0->Ok_0.1 ==> parse_fields(s.take(k), i, acc) is None,
    decreases s.len() - i,
{
    let p = s.take(k);
    lemma_find_either(s, i, CR, LF);
    lemma_find_either_take(s, i, k, CR, LF);
    lemma_fields_bound(s, i, acc);
    let e = line_end(s, i);
    if k >= e + 2 {
        assert(p[e] == s[e]);
        assert(p[e + 1] == s[e + 1]);
        if e != i {
            assert(p.subrange(i, e) =~= s.subrange(i, e));
            if let Some(f) = parse_field(s.subrange(i, e)) {
                lemma_fields_cut(s, e + 2, acc.push(f), k);
            }
        }
    } else {
        if e != i {
            if let Some(f) = parse_field(s.subrange(i, e)) {
                lemma_fields_bound(s, e + 2, acc.push(f));
            }
        }
        if k > e {
            assert(p[e] == s[e]);
        }
    }
}

/// A request head is decided by its own bytes: a buffer that holds all of
/// them, whatever follows, gives the same head and length, and a buffer that
/// holds fewer waits for more.
pub proof fn lemma_request_scan_cut(s: Seq<u8>, k: int)
    requires
        0 <= k <= s.len(),
        request_scan(s) is Some,
        request_scan(s)->Some_0 is Ok,
    ensures
        k >= request_scan(s)->Some_0->Ok_0.1 ==> request_scan(s.take(k)) == request_scan(s),
        k < request_scan(s)->Some_0->Ok_0.1 ==> request_scan(s.take(k)) is None,
{
    let p = s.take(k);
    lemma_find_either(s, 0, CR, LF);
    lemma_find_either_take(s, 0, k, CR, LF);
    let e = line_end(s, 0);
    lemma_fields_bound(s, e + 2, Seq::empty());
    if k >= e + 2 {
        assert(p[e] == s[e]);
        assert(p[e + 1] == s[e + 1]);
        assert(p.subrange(0, e) =~= s.subrange(0, e));
        lemma_fields_cut(s, e + 2, Seq::empty(), k);
    } else if k > e {
        assert(p[e] == s[e]);
    }
}

/// A response head is decided by its own bytes (see `lemma_request_scan_cut`).
pub proof fn lemma_response_scan_cut(s: Seq<u8>, k: int)
    requires
        0 <= k <= s.len(),
        response_scan(s) is Some,
        response_scan(s)->Some_0 is Ok,
    ensures
        k >= response_scan(s)->Some_0->Ok_0.1 ==> response_scan(s.take(k)) == response_scan(s),
        k < response_scan(s)->Some_0->Ok_0.1 ==> response_scan(s.take(k)) is None,
{
    let p = s.take(k);
    lemma_find_either(s, 0, CR, LF);
    lemma_find_either_take(s, 0, k, CR, LF);
    let e = line_end(s, 0);
    lemma_fields_bound(s, e + 2, Seq::empty());
    if k >= e + 2 {
        assert(p[e] == s[e]);
        assert(p[e + 1] == s[e + 1]);
        assert(p.subrange(0, e) =~= s.subrange(0, e));
        lemma_fields_cut(s, e + 2, Seq::empty(), k);
    } else if k > e {
        assert(p[e] == s[e]);
    }
}

} // verus!
