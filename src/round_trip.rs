//! What is written reads back: heads, serialized responses and chunked bodies.
use vstd::prelude::*;
use crate::bytes::{
    eq_ignore_case, hex_of, hex_digit, hex_val, find_either, is_ws, skip_ws, back_ws, trimmed, CR, LF, SP, COLON,
};
use crate::error::Error;
use crate::decoder::{ChunkedState, chunked_run, chunked_step};
use crate::encoder::{chunk_bytes, last_chunk_bytes};
use crate::head::{
    HttpVersion, crlf, field_bytes, fields_bytes, is_field_value, is_line_text, is_token, request_head_bytes, request_line_bytes, response_head_bytes, status_digits,
    status_line_bytes, valid_fields, valid_request_head, valid_response_head, version_bytes,
};
use crate::headers::{
    HeaderSeq, without_named, lemma_last_named, has_named, kw_content_length, kw_date, kw_transfer_encoding, kw_chunked,
};
use crate::response::{ResponseView, declared_headers, response_output};
use crate::transaction::{dated, response_framing, with_chunked, last_transfer_encoding, is_chunked};
use crate::parse::{
    HeadView, line_broken, line_end, line_partial, parse_field, parse_fields, parse_request_line,
    parse_status_line, request_scan, response_scan, three_digits, version_of,
};

verus! {

/// A header line without its CRLF.
pub open spec fn field_line(f: (Seq<u8>, Seq<u8>)) -> Seq<u8> {
    f.0 + seq![COLON, SP] + f.1
}

proof fn lemma_find_run(s: Seq<u8>, i: int, j: int, x: u8, y: u8)
    requires
        0 <= i <= j < s.len(),
        forall|k: int| i <= k < j ==> s[k] != x && s[k] != y,
        s[j] == x || s[j] == y,
    ensures
        find_either(s, i, x, y) == j,
    decreases j - i,
{
    if i < j {
        lemma_find_run(s, i + 1, j, x, y);
    }
}

/// A complete line `s[i..j]` followed by CRLF.
proof fn lemma_line_at(s: Seq<u8>, i: int, j: int)
    requires
        0 <= i <= j,
        j + 1 < s.len(),
        is_line_text(s.subrange(i, j)),
        s[j] == CR,
        s[j + 1] == LF,
    ensures
        line_end(s, i) == j,
        !line_partial(s, i),
        !line_broken(s, i),
{
    assert forall|k: int| i <= k < j implies s[k] != CR && s[k] != LF by {
        assert(s[k] == s.subrange(i, j)[k - i]);
    }
    lemma_find_run(s, i, j, CR, LF);
}

proof fn lemma_version_of(v: HttpVersion)
    ensures
        version_of(version_bytes(v)) == Some(v),
        forall|k: int| 0 <= k < 8 ==> is_token_byte_at(version_bytes(v), k),
        version_bytes(v).len() == 8,
{
    assert(version_bytes(HttpVersion::Http10)[7] != version_bytes(HttpVersion::Http11)[7]);
}

spec fn is_token_byte_at(s: Seq<u8>, k: int) -> bool {
    33 <= s[k] && s[k] <= 126 && s[k] != COLON
}

proof fn lemma_field_line(f: (Seq<u8>, Seq<u8>))
    requires
        is_token(f.0),
        is_field_value(f.1),
    ensures
        parse_field(field_line(f)) == Some(f),
        is_line_text(field_line(f)),
        field_line(f).len() > 0,
        field_bytes(f) == field_line(f) + crlf(),
{
    let l = field_line(f);
    let c = f.0.len() as int;
    assert(l.len() == c + 2 + f.1.len());
    assert forall|k: int| 0 <= k < c implies l[k] != COLON && l[k] != CR && l[k] != LF by {
        assert(l[k] == f.0[k]);
    }
    assert(l[c] == COLON);
    lemma_find_run(l, 0, c, COLON, COLON);
    assert(l.subrange(0, c) =~= f.0);
    assert(l[c + 1] == SP);
    assert(skip_ws(l, c + 1, l.len() as int) == skip_ws(l, c + 2, l.len() as int));
    if f.1.len() > 0 {
        assert(l[c + 2] == f.1[0]);
        assert(!is_ws(l[c + 2]));
        assert(skip_ws(l, c + 2, l.len() as int) == c + 2);
        assert(l[l.len() - 1] == f.1.last());
        assert(back_ws(l, c + 2, l.len() as int) == l.len());
    }
    assert(trimmed(l, c + 1, l.len() as int) =~= f.1);
    assert forall|k: int| 0 <= k < l.len() implies #[trigger] l[k] != CR && l[k] != LF by {
        if k < c {
        } else if k < c + 2 {
        } else {
            assert(l[k] == f.1[k - c - 2]);
        }
    }
    assert(field_bytes(f) =~= field_line(f) + crlf());
}

proof fn lemma_fields(s: Seq<u8>, i: int, acc: HeaderSeq, hs: HeaderSeq)
    requires
        0 <= i,
        valid_fields(hs),
        i + fields_bytes(hs).len() + 2 <= s.len(),
        s.subrange(i, i + fields_bytes(hs).len() + 2) == fields_bytes(hs) + crlf(),
    ensures
        parse_fields(s, i, acc) == Some(Ok::<(HeaderSeq, int), Error>((acc + hs, i + fields_bytes(hs).len() + 2))),
    decreases hs.len(),
{
    let w = fields_bytes(hs) + crlf();
    if hs.len() == 0 {
        assert(fields_bytes(hs) =~= Seq::<u8>::empty());
        assert(s[i] == w[0]);
        assert(s[i + 1] == w[1]);
        assert(s.subrange(i, i) =~= Seq::<u8>::empty());
        lemma_line_at(s, i, i);
        assert(acc + hs =~= acc);
    } else {
        let f = hs[0];
        assert(is_token(hs[0].0) && is_field_value(hs[0].1));
        lemma_field_line(f);
        let fl = field_line(f);
        let rest = hs.drop_first();
        let j = i + fl.len();
        assert(fields_bytes(hs) == field_bytes(f) + fields_bytes(rest));
        assert(w =~= fl + crlf() + (fields_bytes(rest) + crlf()));
        assert(s.subrange(i, j) =~= fl) by {
            assert forall|k: int| 0 <= k < fl.len() implies s.subrange(i, j)[k] == fl[k] by {
                assert(s[i + k] == w[k]);
            }
        }
        assert(s[j] == w[fl.len() as int]);
        assert(s[j + 1] == w[fl.len() as int + 1]);
        lemma_line_at(s, i, j);
        assert(valid_fields(rest)) by {
            assert forall|k: int| 0 <= k < rest.len() implies is_token(#[trigger] rest[k].0)
                && is_field_value(rest[k].1) by {
                assert(rest[k] == hs[k + 1]);
            }
        }
        let n2 = fields_bytes(rest).len() + 2;
        assert(s.subrange(j + 2, j + 2 + n2) =~= fields_bytes(rest) + crlf()) by {
            assert forall|k: int| 0 <= k < n2 implies s.subrange(j + 2, j + 2 + n2)[k] == (
            fields_bytes(rest) + crlf())[k] by {
                assert(s[j + 2 + k] == w[fl.len() + 2 + k]);
            }
        }
        lemma_fields(s, j + 2, acc.push(f), rest);
        assert(acc.push(f) + rest =~= acc + hs);
    }
}

/// Round trip for requests: a valid request head, serialized and followed by
/// any bytes, parses back to itself, consuming exactly its serialization.
pub proof fn lemma_request_round_trip(h: HeadView<(Seq<u8>, Seq<u8>)>, rest: Seq<u8>)
    requires
        valid_request_head(h),
    ensures
        request_scan(request_head_bytes(h) + rest) == Some(
            Ok::<(HeadView<(Seq<u8>, Seq<u8>)>, int), Error>(
                (h, request_head_bytes(h).len() as int),
            ),
        ),
{
    let (v, rl, hs) = h;
    let (m, t) = rl;
    let l = request_line_bytes(v, rl);
    let s = request_head_bytes(h) + rest;
    lemma_version_of(v);
    let a = m.len() as int;
    let b = a + 1 + t.len();
    assert(l.len() == b + 9);
    assert forall|k: int| 0 <= k < a implies l[k] != SP by {
        assert(l[k] == m[k]);
    }
    assert(l[a] == SP);
    lemma_find_run(l, 0, a, SP, SP);
    assert forall|k: int| a + 1 <= k < b implies l[k] != SP by {
        assert(l[k] == t[k - a - 1]);
    }
    assert(l[b] == SP);
    lemma_find_run(l, a + 1, b, SP, SP);
    assert(l.subrange(0, a) =~= m);
    assert(l.subrange(a + 1, b) =~= t);
    assert(l.subrange(b + 1, l.len() as int) =~= version_bytes(v));
    assert(parse_request_line(l) == Some((v, rl)));
    assert forall|k: int| 0 <= k < l.len() implies #[trigger] l[k] != CR && l[k] != LF by {
        if k < a {
            assert(l[k] == m[k]);
        } else if k == a || k == b {
        } else if k < b {
            assert(l[k] == t[k - a - 1]);
        } else {
            assert(l[k] == version_bytes(v)[k - b - 1]);
            assert(is_token_byte_at(version_bytes(v), k - b - 1));
        }
    }
    let fb = fields_bytes(hs);
    assert(s =~= l + crlf() + (fb + crlf()) + rest);
    assert(s.subrange(0, l.len() as int) =~= l);
    assert(s[l.len() as int] == CR);
    assert(s[l.len() as int + 1] == LF);
    lemma_line_at(s, 0, l.len() as int);
    let i = l.len() as int + 2;
    assert(s.subrange(i, i + fb.len() + 2) =~= fb + crlf());
    lemma_fields(s, i, Seq::empty(), hs);
    assert(Seq::<(Seq<u8>, Seq<u8>)>::empty() + hs =~= hs);
}

proof fn lemma_status_digits(code: u16)
    requires
        100 <= code <= 999,
    ensures
        three_digits(status_digits(code)[0], status_digits(code)[1], status_digits(code)[2])
            == code,
        status_digits(code)[0] != 48,
        forall|k: int| 0 <= k < 3 ==> 48 <= #[trigger] status_digits(code)[k] <= 57,
{
    let x = code / 100;
    let y = (code / 10) % 10;
    let z = code % 10;
    assert(x * 100 + y * 10 + z == code) by (nonlinear_arith)
        requires
            x == code / 100,
            y == (code / 10) % 10,
            z == code % 10,
            code <= 999,
    ;
    assert(1 <= x <= 9);
}

/// Round trip for responses: a valid response head, serialized and followed by
/// any bytes, parses back to itself, consuming exactly its serialization.
pub proof fn lemma_response_round_trip(h: HeadView<(u16, Seq<u8>)>, rest: Seq<u8>)
    requires
        valid_response_head(h),
    ensures
        response_scan(response_head_bytes(h) + rest) == Some(
            Ok::<(HeadView<(u16, Seq<u8>)>, int), Error>(
                (h, response_head_bytes(h).len() as int),
            ),
        ),
{
    let (v, st, hs) = h;
    let (code, reason) = st;
    let l = status_line_bytes(v, st);
    let s = response_head_bytes(h) + rest;
    lemma_version_of(v);
    lemma_status_digits(code);
    let d = status_digits(code);
    assert(l.len() == 13 + reason.len());
    assert forall|k: int| 0 <= k < 8 implies l[k] != SP by {
        assert(l[k] == version_bytes(v)[k]);
        assert(is_token_byte_at(version_bytes(v), k));
    }
    assert(l[8] == SP);
    lemma_find_run(l, 0, 8, SP, SP);
    assert(l.subrange(0, 8) =~= version_bytes(v));
    assert(l[9] == d[0] && l[10] == d[1] && l[11] == d[2]);
    assert(l[12] == SP);
    assert(l.subrange(13, l.len() as int) =~= reason);
    assert(parse_status_line(l) == Some((v, st)));
    assert forall|k: int| 0 <= k < l.len() implies #[trigger] l[k] != CR && l[k] != LF by {
        if k < 8 {
            assert(l[k] == version_bytes(v)[k]);
            assert(is_token_byte_at(version_bytes(v), k));
        } else if k == 8 || k == 12 {
        } else if k < 12 {
            assert(l[k] == d[k - 9]);
        } else {
            assert(l[k] == reason[k - 13]);
        }
    }
    let fb = fields_bytes(hs);
    assert(s =~= l + crlf() + (fb + crlf()) + rest);
    assert(s.subrange(0, l.len() as int) =~= l);
    assert(s[l.len() as int] == CR);
    assert(s[l.len() as int + 1] == LF);
    lemma_line_at(s, 0, l.len() as int);
    let i = l.len() as int + 2;
    assert(s.subrange(i, i + fb.len() + 2) =~= fb + crlf());
    lemma_fields(s, i, Seq::empty(), hs);
    assert(Seq::<(Seq<u8>, Seq<u8>)>::empty() + hs =~= hs);
}

// ---- chunked bodies ----

/// A chunked body on the wire: each chunk as its size in hex, CRLF, its data and
/// CRLF, then the last chunk `0` CRLF and the final CRLF.
pub open spec fn chunked_wire(chunks: Seq<Seq<u8>>) -> Seq<u8>
    decreases chunks.len(),
{
    if chunks.len() == 0 {
        last_chunk_bytes()
    } else {
        chunk_bytes(chunks[0]) + chunked_wire(chunks.drop_first())
    }
}

/// The data of `chunks`, in order.
pub open spec fn chunks_data(chunks: Seq<Seq<u8>>) -> Seq<u8>
    decreases chunks.len(),
{
    if chunks.len() == 0 {
        Seq::empty()
    } else {
        chunks[0] + chunks_data(chunks.drop_first())
    }
}

proof fn lemma_run_append(st: ChunkedState, a: Seq<u8>, b: Seq<u8>)
    requires
        chunked_run(st, a) is Some,
        chunked_run(st, a)->Some_0.2 == a.len(),
    ensures
        chunked_run(st, a + b) == match chunked_run(chunked_run(st, a)->Some_0.0, b) {
            None => None,
            Some((s2, o2, n2)) => Some(
                (s2, chunked_run(st, a)->Some_0.1 + o2, chunked_run(st, a)->Some_0.2 + n2),
            ),
        },
    decreases b.len(),
{
    let (s1, o1, n1) = chunked_run(st, a)->Some_0;
    if b.len() == 0 {
        assert(a + b =~= a);
        assert(o1 + Seq::<u8>::empty() =~= o1);
    } else {
        assert((a + b).drop_last() =~= a + b.drop_last());
        assert((a + b).last() == b.last());
        lemma_run_append(st, a, b.drop_last());
        if let Some((s3, o3, n3)) = chunked_run(s1, b.drop_last()) {
            if let Some((s4, o4)) = chunked_step(s3, b.last()) {
                assert(o1 + o3 + o4 =~= o1 + (o3 + o4));
            }
        }
    }
}

proof fn lemma_run_one(st: ChunkedState, x: u8)
    requires
        !(st is Done),
    ensures
        chunked_run(st, seq![x]) == match chunked_step(st, x) {
            None => None,
            Some((s2, o)) => Some((s2, o, 1nat)),
        },
{
    assert(seq![x].drop_last() =~= Seq::<u8>::empty());
    assert(seq![x].last() == x);
    assert(chunked_run(st, Seq::<u8>::empty()) == Some((st, Seq::<u8>::empty(), 0nat)));
    if let Some((s2, o)) = chunked_step(st, x) {
        assert(Seq::<u8>::empty() + o =~= o);
    }
}

proof fn lemma_run_hex(n: nat)
    requires
        n <= u64::MAX,
    ensures
        chunked_run(ChunkedState::Size(0, false), hex_of(n)) == Some(
            (ChunkedState::Size(n as u64, true), Seq::<u8>::empty(), hex_of(n).len()),
        ),
    decreases n,
{
    let d = hex_digit(n % 16);
    assert(hex_val(d) == Some((n % 16) as u8));
    if n < 16 {
        lemma_run_one(ChunkedState::Size(0, false), d);
    } else {
        lemma_run_hex(n / 16);
        let h = hex_of(n / 16);
        assert(hex_of(n) == h.push(d));
        assert(h.push(d) =~= h + seq![d]);
        lemma_run_append(ChunkedState::Size(0, false), h, seq![d]);
        lemma_run_one(ChunkedState::Size((n / 16) as u64, true), d);
        assert((n / 16) * 16 + n % 16 == n);
        assert(Seq::<u8>::empty() + Seq::<u8>::empty() =~= Seq::<u8>::empty());
    }
}

proof fn lemma_run_data(r: u64, data: Seq<u8>, k: int)
    requires
        data.len() == r,
        r >= 1,
        0 <= k <= r,
    ensures
        chunked_run(ChunkedState::Data(r), data.take(k)) == Some(
            (
                if k == r {
                    ChunkedState::DataCr
                } else {
                    ChunkedState::Data((r - k) as u64)
                },
                data.take(k),
                k as nat,
            ),
        ),
    decreases k,
{
    if k == 0 {
        assert(data.take(0) =~= Seq::<u8>::empty());
    } else {
        lemma_run_data(r, data, k - 1);
        assert(data.take(k).drop_last() =~= data.take(k - 1));
        assert(data.take(k - 1) + seq![data[k - 1]] =~= data.take(k));
    }
}

/// One non-empty chunk takes the decoder from a size line to the next one and
/// yields the chunk's data.
proof fn lemma_chunk(c: Seq<u8>)
    requires
        c.len() > 0,
        c.len() <= u64::MAX,
    ensures
        chunked_run(ChunkedState::Size(0, false), chunk_bytes(c)) == Some(
            (ChunkedState::Size(0, false), c, chunk_bytes(c).len()),
        ),
{
    let n = c.len() as u64;
    let h = hex_of(c.len());
    lemma_run_hex(c.len());
    let s0 = ChunkedState::Size(0, false);
    // hex, CR, LF
    lemma_run_one(ChunkedState::Size(n, true), CR);
    lemma_run_append(s0, h, seq![CR]);
    lemma_run_one(ChunkedState::SizeLf(n), LF);
    lemma_run_append(s0, h + seq![CR], seq![LF]);
    let p1 = h + seq![CR] + seq![LF];
    // data
    lemma_run_data(n, c, n as int);
    assert(c.take(n as int) =~= c);
    lemma_run_append(s0, p1, c);
    let p2 = p1 + c;
    lemma_run_one(ChunkedState::DataCr, CR);
    lemma_run_append(s0, p2, seq![CR]);
    lemma_run_one(ChunkedState::DataLf, LF);
    lemma_run_append(s0, p2 + seq![CR], seq![LF]);
    assert(chunk_bytes(c) =~= p2 + seq![CR] + seq![LF]);
    assert(Seq::<u8>::empty() + Seq::<u8>::empty() + Seq::<u8>::empty() + c + Seq::<u8>::empty()
        + Seq::<u8>::empty() =~= c);
}

proof fn lemma_last_chunk()
    ensures
        chunked_run(ChunkedState::Size(0, false), last_chunk_bytes()) == Some(
            (ChunkedState::Done, Seq::<u8>::empty(), 5nat),
        ),
{
    let s0 = ChunkedState::Size(0, false);
    assert(hex_val(48u8) == Some(0u8));
    lemma_run_one(s0, 48);
    lemma_run_one(ChunkedState::Size(0, true), CR);
    lemma_run_append(s0, seq![48u8], seq![CR]);
    assert(seq![48u8] + seq![CR] =~= seq![48u8, CR]);
    lemma_run_one(ChunkedState::SizeLf(0), LF);
    lemma_run_append(s0, seq![48u8, CR], seq![LF]);
    assert(seq![48u8, CR] + seq![LF] =~= seq![48u8, CR, LF]);
    lemma_run_one(ChunkedState::Trailer, CR);
    lemma_run_append(s0, seq![48u8, CR, LF], seq![CR]);
    assert(seq![48u8, CR, LF] + seq![CR] =~= seq![48u8, CR, LF, CR]);
    lemma_run_one(ChunkedState::EndLf, LF);
    lemma_run_append(s0, seq![48u8, CR, LF, CR], seq![LF]);
    assert(seq![48u8, CR, LF, CR] + seq![LF] =~= last_chunk_bytes());
    assert(Seq::<u8>::empty() + Seq::<u8>::empty() =~= Seq::<u8>::empty());
}

/// What the chunked encoder writes the chunked decoder reads back: a chunked
/// body of non-empty chunks, followed by any bytes, decodes to the chunks' data,
/// ends the body, and consumes exactly the body's bytes.
pub proof fn lemma_chunked_round_trip(chunks: Seq<Seq<u8>>, rest: Seq<u8>)
    requires
        forall|i: int| 0 <= i < chunks.len() ==> 0 < #[trigger] chunks[i].len() <= u64::MAX,
    ensures
        chunked_run(ChunkedState::Size(0, false), chunked_wire(chunks) + rest) == Some(
            (ChunkedState::Done, chunks_data(chunks), chunked_wire(chunks).len()),
        ),
    decreases chunks.len(),
{
    let s0 = ChunkedState::Size(0, false);
    if chunks.len() == 0 {
        lemma_last_chunk();
        lemma_run_append(s0, last_chunk_bytes(), rest);
        assert(chunked_run(ChunkedState::Done, rest) == Some((ChunkedState::Done, Seq::<u8>::empty(), 0nat))) by {
            lemma_run_stays_done(rest);
        }
        assert(Seq::<u8>::empty() + Seq::<u8>::empty() =~= Seq::<u8>::empty());
    } else {
        let c = chunks[0];
        let tail = chunks.drop_first();
        assert(forall|i: int| 0 <= i < tail.len() ==> #[trigger] tail[i] == chunks[i + 1]);
        lemma_chunk(c);
        lemma_chunked_round_trip(tail, rest);
        assert(chunked_wire(chunks) + rest =~= chunk_bytes(c) + (chunked_wire(tail) + rest));
        lemma_run_append(s0, chunk_bytes(c), chunked_wire(tail) + rest);
    }
}

proof fn lemma_run_stays_done(b: Seq<u8>)
    ensures
        chunked_run(ChunkedState::Done, b) == Some((ChunkedState::Done, Seq::<u8>::empty(), 0nat)),
    decreases b.len(),
{
    if b.len() > 0 {
        lemma_run_stays_done(b.drop_last());
    }
}

// ---- what the serializer writes ----

proof fn lemma_valid_push(hs: HeaderSeq, f: (Seq<u8>, Seq<u8>))
    requires
        valid_fields(hs),
        is_token(f.0),
        is_field_value(f.1),
    ensures
        valid_fields(hs.push(f)),
{
    assert forall|i: int| 0 <= i < hs.push(f).len() implies is_token(#[trigger] hs.push(f)[i].0)
        && is_field_value(hs.push(f)[i].1) by {
        if i < hs.len() {
            assert(hs.push(f)[i] == hs[i]);
        }
    }
}

proof fn lemma_valid_without(hs: HeaderSeq, n: Seq<u8>)
    requires
        valid_fields(hs),
    ensures
        valid_fields(without_named(hs, n)),
    decreases hs.len(),
{
    if hs.len() > 0 {
        let d = hs.drop_last();
        assert(valid_fields(d)) by {
            assert forall|i: int| 0 <= i < d.len() implies is_token(#[trigger] d[i].0)
                && is_field_value(d[i].1) by {
                assert(d[i] == hs[i]);
            }
        }
        lemma_valid_without(d, n);
        assert(is_token(hs[hs.len() - 1].0) && is_field_value(hs[hs.len() - 1].1));
        if !eq_ignore_case(hs.last().0, n) {
            lemma_valid_push(without_named(d, n), hs.last());
        }
    }
}

proof fn lemma_keywords()
    ensures
        is_token(kw_content_length()),
        is_token(kw_date()),
        is_token(kw_transfer_encoding()),
        is_field_value(kw_chunked()),
        is_field_value(seq![48u8]),
{
    assert(is_token(kw_content_length()));
    assert(is_token(kw_date()));
    assert(is_token(kw_transfer_encoding()));
    assert(is_field_value(kw_chunked()));
    assert(is_field_value(seq![48u8]));
}

proof fn lemma_valid_with_chunked(hs: HeaderSeq)
    requires
        valid_fields(hs),
    ensures
        valid_fields(with_chunked(hs)),
{
    lemma_keywords();
    let j = last_transfer_encoding(hs);
    if j < 0 {
        lemma_valid_push(hs, (kw_transfer_encoding(), kw_chunked()));
    } else if !is_chunked(hs) {
        lemma_last_named(hs, kw_transfer_encoding(), hs.len() as int);
        let v = hs[j].1;
        let w = v + seq![44u8, 32] + kw_chunked();
        assert(is_token(hs[j].0) && is_field_value(v));
        assert(is_field_value(w)) by {
            assert forall|i: int| 0 <= i < w.len() implies #[trigger] w[i] != CR && w[i] != LF by {
                if i < v.len() {
                    assert(w[i] == v[i]);
                } else if i >= v.len() + 2 {
                    assert(w[i] == kw_chunked()[i - v.len() - 2]);
                }
            }
            if v.len() > 0 {
                assert(w[0] == v[0]);
            }
            assert(w.last() == 100u8);
        }
        let hu = hs.update(j, (hs[j].0, w));
        assert forall|i: int| 0 <= i < hu.len() implies is_token(#[trigger] hu[i].0) && is_field_value(
            hu[i].1,
        ) by {
            if i != j {
                assert(hu[i] == hs[i]);
            }
        }
    }
}

/// Round trip through the serializer: when a response with a valid head is
/// serialized with a valid date, the bytes written, followed by any others,
/// parse back to the head it wrote. That head has the response's version and
/// status, and its headers in order, with `Content-Length: 0` declared for a
/// response without a body, the Date added when there was none, and chunked
/// framing added when no length was declared.
pub proof fn lemma_serialized_response_parses(res: ResponseView, date: Seq<u8>, rest: Seq<u8>)
    requires
        valid_response_head(res.0),
        is_field_value(date),
        response_output(res, date) is Ok,
    ensures
        response_framing(declared_headers(res), date) is Ok,
        ({
            let hs1 = response_framing(declared_headers(res), date)->Ok_0.0;
            let h1 = (res.0.0, res.0.1, hs1);
            response_scan(response_output(res, date)->Ok_0 + rest) == Some(
                Ok::<(HeadView<(u16, Seq<u8>)>, int), Error>(
                    (h1, response_head_bytes(h1).len() as int),
                ),
            )
        }),
{
    lemma_keywords();
    let hs = res.0.2;
    let hs0 = declared_headers(res);
    if res.1 is None {
        lemma_valid_without(hs, kw_content_length());
        lemma_valid_push(without_named(hs, kw_content_length()), (kw_content_length(), seq![48u8]));
    }
    let hd = dated(hs0, date);
    if !has_named(hs0, kw_date()) {
        lemma_valid_push(hs0, (kw_date(), date));
    }
    let (hs1, enc) = response_framing(hs0, date)->Ok_0;
    if hs1 != hd {
        lemma_valid_with_chunked(hd);
    }
    let h1 = (res.0.0, res.0.1, hs1);
    let head = response_head_bytes(h1);
    let out = response_output(res, date)->Ok_0;
    let tail = out.subrange(head.len() as int, out.len() as int);
    assert(out =~= head + tail);
    lemma_response_round_trip(h1, tail + rest);
    assert(out + rest =~= head + (tail + rest));
}

} // verus!
