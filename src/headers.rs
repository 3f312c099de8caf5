//! The ordered header multimap and the protocol keywords matched in it.
use vstd::prelude::*;
use crate::bytes::{eq_ignore_case, eq_ignore_case_bytes, list_contains, list_has};

verus! {

pub open spec fn kw_connection() -> Seq<u8> {
    seq![99u8, 111, 110, 110, 101, 99, 116, 105, 111, 110]
}

pub open spec fn kw_keep_alive() -> Seq<u8> {
    seq![107u8, 101, 101, 112, 45, 97, 108, 105, 118, 101]
}

pub open spec fn kw_close() -> Seq<u8> {
    seq![99u8, 108, 111, 115, 101]
}

/// `Content-Length`.
pub open spec fn kw_content_length() -> Seq<u8> {
    seq![67u8, 111, 110, 116, 101, 110, 116, 45, 76, 101, 110, 103, 116, 104]
}

/// `Transfer-Encoding`.
pub open spec fn kw_transfer_encoding() -> Seq<u8> {
    seq![84u8, 114, 97, 110, 115, 102, 101, 114, 45, 69, 110, 99, 111, 100, 105, 110, 103]
}

pub open spec fn kw_chunked() -> Seq<u8> {
    seq![99u8, 104, 117, 110, 107, 101, 100]
}

/// `Date`.
pub open spec fn kw_date() -> Seq<u8> {
    seq![68u8, 97, 116, 101]
}

pub fn connection_kw() -> (r: [u8; 10])
    ensures
        r@ == kw_connection(),
{
    [99, 111, 110, 110, 101, 99, 116, 105, 111, 110]
}

pub fn keep_alive_kw() -> (r: [u8; 10])
    ensures
        r@ == kw_keep_alive(),
{
    [107, 101, 101, 112, 45, 97, 108, 105, 118, 101]
}

pub fn close_kw() -> (r: [u8; 5])
    ensures
        r@ == kw_close(),
{
    [99, 108, 111, 115, 101]
}

pub fn content_length_kw() -> (r: [u8; 14])
    ensures
        r@ == kw_content_length(),
{
    [67, 111, 110, 116, 101, 110, 116, 45, 76, 101, 110, 103, 116, 104]
}

pub fn transfer_encoding_kw() -> (r: [u8; 17])
    ensures
        r@ == kw_transfer_encoding(),
{
    [84, 114, 97, 110, 115, 102, 101, 114, 45, 69, 110, 99, 111, 100, 105, 110, 103]
}

pub fn chunked_kw() -> (r: [u8; 7])
    ensures
        r@ == kw_chunked(),
{
    [99, 104, 117, 110, 107, 101, 100]
}

pub fn date_kw() -> (r: [u8; 4])
    ensures
        r@ == kw_date(),
{
    [68, 97, 116, 101]
}

/// One header line: a name and its value, both as raw bytes.
pub struct HeaderField {
    pub name: Vec<u8>,
    pub value: Vec<u8>,
}

/// Header fields in the order they were added; a name may occur several times.
pub struct Headers {
    fields: Vec<HeaderField>,
}

/// A header list as the contracts see it: (name, value) pairs in order.
pub type HeaderSeq = Seq<(Seq<u8>, Seq<u8>)>;

impl View for Headers {
    type V = HeaderSeq;

    closed spec fn view(&self) -> HeaderSeq {
        self.fields@.map_values(|f: HeaderField| (f.name@, f.value@))
    }
}

/// The first index at or after `i` whose name equals `n` up to case; the length if none.
pub open spec fn find_named(hs: HeaderSeq, n: Seq<u8>, i: int) -> int
    decreases hs.len() - i,
{
    if 0 <= i < hs.len() {
        if eq_ignore_case(hs[i].0, n) {
            i
        } else {
            find_named(hs, n, i + 1)
        }
    } else {
        hs.len() as int
    }
}

/// The last index below `j` whose name equals `n` up to case; -1 if none.
pub open spec fn last_named(hs: HeaderSeq, n: Seq<u8>, j: int) -> int
    decreases j,
{
    if 0 < j <= hs.len() {
        if eq_ignore_case(hs[j - 1].0, n) {
            j - 1
        } else {
            last_named(hs, n, j - 1)
        }
    } else {
        -1
    }
}

pub open spec fn has_named(hs: HeaderSeq, n: Seq<u8>) -> bool {
    exists|k: int| 0 <= k < hs.len() && eq_ignore_case(#[trigger] hs[k].0, n)
}

/// `hs` without the fields named `n` (up to case).
pub open spec fn without_named(hs: HeaderSeq, n: Seq<u8>) -> HeaderSeq
    decreases hs.len(),
{
    if hs.len() == 0 {
        hs
    } else if eq_ignore_case(hs.last().0, n) {
        without_named(hs.drop_last(), n)
    } else {
        without_named(hs.drop_last(), n).push(hs.last())
    }
}

/// Some `Connection` field lists `t` among its options.
pub open spec fn connection_has(hs: HeaderSeq, t: Seq<u8>) -> bool {
    exists|k: int|
        0 <= k < hs.len() && eq_ignore_case(#[trigger] hs[k].0, kw_connection()) && list_has(
            hs[k].1,
            0,
            t,
        )
}

pub proof fn lemma_find_named(hs: HeaderSeq, n: Seq<u8>, i: int)
    requires
        0 <= i <= hs.len(),
    ensures
        i <= find_named(hs, n, i) <= hs.len(),
        find_named(hs, n, i) < hs.len() ==> eq_ignore_case(hs[find_named(hs, n, i)].0, n),
        forall|k: int| i <= k < find_named(hs, n, i) ==> !eq_ignore_case(#[trigger] hs[k].0, n),
    decreases hs.len() - i,
{
    if i < hs.len() && !eq_ignore_case(hs[i].0, n) {
        lemma_find_named(hs, n, i + 1);
    }
}

pub proof fn lemma_last_named(hs: HeaderSeq, n: Seq<u8>, j: int)
    requires
        0 <= j <= hs.len(),
    ensures
        -1 <= last_named(hs, n, j) < j,
        last_named(hs, n, j) >= 0 ==> eq_ignore_case(hs[last_named(hs, n, j)].0, n),
        forall|k: int|
            last_named(hs, n, j) < k < j ==> !eq_ignore_case(#[trigger] hs[k].0, n),
    decreases j,
{
    if 0 < j && !eq_ignore_case(hs[j - 1].0, n) {
        lemma_last_named(hs, n, j - 1);
    }
}

impl Headers {
    pub fn new() -> (r: Headers)
        ensures
            r@ == Seq::<(Seq<u8>, Seq<u8>)>::empty(),
    {
        let r = Headers { fields: Vec::new() };
        assert(r@ =~= Seq::<(Seq<u8>, Seq<u8>)>::empty());
        r
    }

    pub fn len(&self) -> (r: usize)
        ensures
            r == self@.len(),
    {
        self.fields.len()
    }

    pub fn name_at(&self, i: usize) -> (r: &[u8])
        requires
            i < self@.len(),
        ensures
            r@ == self@[i as int].0,
    {
        self.fields[i].name.as_slice()
    }

    pub fn value_at(&self, i: usize) -> (r: &[u8])
        requires
            i < self@.len(),
        ensures
            r@ == self@[i as int].1,
    {
        self.fields[i].value.as_slice()
    }

    /// Adds a field after all present ones.
    pub fn append(&mut self, name: Vec<u8>, value: Vec<u8>)
        ensures
            final(self)@ == old(self)@.push((name@, value@)),
    {
        let ghost nv = (name@, value@);
        self.fields.push(HeaderField { name, value });
        assert(final(self)@ =~= old(self)@.push(nv));
    }

    /// Replaces the value of the field at `i`, keeping its name and place.
    pub fn set_value_at(&mut self, i: usize, value: Vec<u8>)
        requires
            i < old(self)@.len(),
        ensures
            final(self)@ == old(self)@.update(i as int, (old(self)@[i as int].0, value@)),
    {
        let ghost v = value@;
        let name = self.fields[i].name.clone();
        proof {
            assert(name@ =~= self.fields@[i as int].name@);
        }
        self.fields.set(i, HeaderField { name, value });
        assert(final(self)@ =~= old(self)@.update(i as int, (old(self)@[i as int].0, v)));
    }

    /// The first field at or after `from` named `name`, up to case; `len()` if none.
    pub fn find_from(&self, name: &[u8], from: usize) -> (r: usize)
        requires
            from <= self@.len(),
        ensures
            r == find_named(self@, name@, from as int),
            from <= r <= self@.len(),
    {
        proof {
            lemma_find_named(self@, name@, from as int);
        }
        let mut k = from;
        while k < self.fields.len()
            invariant
                from <= k <= self@.len(),
                self@.len() == self.fields@.len(),
                find_named(self@, name@, k as int) == find_named(self@, name@, from as int),
            decreases self@.len() - k,
        {
            if eq_ignore_case_bytes(self.fields[k].name.as_slice(), name) {
                return k;
            }
            k += 1;
        }
        k
    }

    /// The last field named `name`, up to case.
    pub fn find_last(&self, name: &[u8]) -> (r: Option<usize>)
        ensures
            r.is_some() <==> last_named(self@, name@, self@.len() as int) >= 0,
            r.is_some() ==> r.unwrap() == last_named(self@, name@, self@.len() as int),
            r.is_some() ==> r.unwrap() < self@.len(),
    {
        let mut j = self.fields.len();
        while j > 0
            invariant
                0 <= j <= self@.len(),
                self@.len() == self.fields@.len(),
                last_named(self@, name@, j as int) == last_named(
                    self@,
                    name@,
                    self@.len() as int,
                ),
            decreases j,
        {
            if eq_ignore_case_bytes(self.fields[j - 1].name.as_slice(), name) {
                return Some(j - 1);
            }
            j -= 1;
        }
        None
    }

    /// Whether a field is named `name`, up to case.
    pub fn has(&self, name: &[u8]) -> (r: bool)
        ensures
            r == has_named(self@, name@),
    {
        let k = self.find_from(name, 0);
        proof {
            lemma_find_named(self@, name@, 0);
        }
        k < self.fields.len()
    }

    /// Removes every field named `name` (up to case) and adds `name: value` last.
    pub fn set(&mut self, name: Vec<u8>, value: Vec<u8>)
        ensures
            final(self)@ == without_named(old(self)@, name@).push((name@, value@)),
    {
        let mut kept: Vec<HeaderField> = Vec::new();
        let ghost hs = old(self)@;
        let mut i: usize = 0;
        while i < self.fields.len()
            invariant
                0 <= i <= self.fields@.len(),
                hs == self@,
                hs == self.fields@.map_values(|f: HeaderField| (f.name@, f.value@)),
                kept@.map_values(|f: HeaderField| (f.name@, f.value@)) == without_named(
                    hs.take(i as int),
                    name@,
                ),
            decreases self.fields@.len() - i,
        {
            let f = &self.fields[i];
            assert(hs.take(i as int + 1).drop_last() =~= hs.take(i as int));
            if !eq_ignore_case_bytes(f.name.as_slice(), name.as_slice()) {
                let ghost before = kept@;
                kept.push(HeaderField { name: f.name.clone(), value: f.value.clone() });
                proof {
                    assert(kept@.last().name@ =~= f.name@);
                    assert(kept@.last().value@ =~= f.value@);
                    assert(kept@.map_values(|g: HeaderField| (g.name@, g.value@)) =~= before.map_values(
                        |g: HeaderField| (g.name@, g.value@),
                    ).push(hs[i as int]));
                }
            }
            i += 1;
        }
        assert(hs.take(self.fields@.len() as int) =~= hs);
        let ghost nv = (name@, value@);
        kept.push(HeaderField { name, value });
        self.fields = kept;
        assert(final(self)@ =~= without_named(hs, nv.0).push(nv));
    }

    /// Whether a `Connection` field lists `option` (up to case).
    pub fn connection_lists(&self, option: &[u8]) -> (r: bool)
        ensures
            r == connection_has(self@, option@),
    {
        let conn = connection_kw();
        let mut k: usize = 0;
        while k < self.fields.len()
            invariant
                0 <= k <= self@.len(),
                self@.len() == self.fields@.len(),
                conn@ == kw_connection(),
                forall|j: int|
                    0 <= j < k ==> !(eq_ignore_case(#[trigger] self@[j].0, kw_connection())
                        && list_has(self@[j].1, 0, option@)),
            decreases self@.len() - k,
        {
            if eq_ignore_case_bytes(self.fields[k].name.as_slice(), &conn) && list_contains(
                self.fields[k].value.as_slice(),
                option,
            ) {
                assert(self@[k as int].0 == self.fields@[k as int].name@);
                assert(self@[k as int].1 == self.fields@[k as int].value@);
                return true;
            }
            assert(self@[k as int].0 == self.fields@[k as int].name@);
            assert(self@[k as int].1 == self.fields@[k as int].value@);
            k += 1;
        }
        false
    }
}

} // verus!
