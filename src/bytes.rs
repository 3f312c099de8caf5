//! Byte-level helpers shared by the parser, the codecs and the serializer.
use vstd::prelude::*;

verus! {

pub const CR: u8 = 13;

pub const LF: u8 = 10;

pub const SP: u8 = 32;

pub const COMMA: u8 = 44;

pub const COLON: u8 = 58;

/// The byte `b`, with ASCII upper-case letters mapped to lower case.
pub open spec fn lower(b: u8) -> u8 {
    if 65 <= b && b <= 90 {
        (b + 32) as u8
    } else {
        b
    }
}

/// `a` and `b` are equal when ASCII case is ignored.
pub open spec fn eq_ignore_case(a: Seq<u8>, b: Seq<u8>) -> bool {
    a.len() == b.len() && forall|i: int| 0 <= i < a.len() ==> lower(#[trigger] a[i]) == lower(b[i])
}

/// Optional whitespace of the HTTP grammar: space or horizontal tab.
pub open spec fn is_ws(b: u8) -> bool {
    b == SP || b == 9
}

pub open spec fn is_digit(b: u8) -> bool {
    48 <= b && b <= 57
}

/// The value of a hexadecimal digit, if `b` is one (either case).
pub open spec fn hex_val(b: u8) -> Option<u8> {
    if 48 <= b && b <= 57 {
        Some((b - 48) as u8)
    } else if 97 <= b && b <= 102 {
        Some((b - 87) as u8)
    } else if 65 <= b && b <= 70 {
        Some((b - 55) as u8)
    } else {
        None
    }
}

/// The lower-case hexadecimal digit for `d < 16`.
pub open spec fn hex_digit(d: nat) -> u8 {
    if d < 10 {
        (48 + d) as u8
    } else {
        (87 + d) as u8
    }
}

/// `n` written in lower-case hexadecimal, without leading zeros.
pub open spec fn hex_of(n: nat) -> Seq<u8>
    decreases n,
{
    if n < 16 {
        seq![hex_digit(n)]
    } else {
        hex_of(n / 16).push(hex_digit(n % 16))
    }
}

/// All bytes of `s` are decimal digits.
pub open spec fn all_digits(s: Seq<u8>) -> bool {
    forall|i: int| 0 <= i < s.len() ==> is_digit(#[trigger] s[i])
}

/// The number that the decimal digits `s` spell.
pub open spec fn decimal(s: Seq<u8>) -> nat
    decreases s.len(),
{
    if s.len() == 0 {
        0
    } else {
        decimal(s.drop_last()) * 10 + (s.last() - 48) as nat
    }
}

/// The first index at or after `i` that holds `x` or `y`; the length if none does.
pub open spec fn find_either(s: Seq<u8>, i: int, x: u8, y: u8) -> int
    decreases s.len() - i,
{
    if 0 <= i < s.len() {
        if s[i] == x || s[i] == y {
            i
        } else {
            find_either(s, i + 1, x, y)
        }
    } else {
        s.len() as int
    }
}

/// The first index in `[i, j)` that is not whitespace; `j` if none is.
pub open spec fn skip_ws(s: Seq<u8>, i: int, j: int) -> int
    decreases j - i,
{
    if i < j && is_ws(s[i]) {
        skip_ws(s, i + 1, j)
    } else {
        i
    }
}

/// The end of `[i, j)` once trailing whitespace is cut off.
pub open spec fn back_ws(s: Seq<u8>, i: int, j: int) -> int
    decreases j - i,
{
    if i < j && is_ws(s[j - 1]) {
        back_ws(s, i, j - 1)
    } else {
        j
    }
}

/// `s[i..j]` without leading and trailing whitespace.
pub open spec fn trimmed(s: Seq<u8>, i: int, j: int) -> Seq<u8> {
    let a = skip_ws(s, i, j);
    s.subrange(a, back_ws(s, a, j))
}

/// The comma-separated list `v`, read from index `i`, holds an element equal to
/// `t` up to ASCII case, once whitespace around the element is cut off.
pub open spec fn list_has(v: Seq<u8>, i: int, t: Seq<u8>) -> bool
    decreases v.len() - i,
{
    let c = find_either(v, i, COMMA, COMMA);
    eq_ignore_case(trimmed(v, i, c), t) || (i <= c < v.len() && list_has(v, c + 1, t))
}

/// Like `list_has`, but the last element of the list is not looked at.
pub open spec fn list_init_has(v: Seq<u8>, i: int, t: Seq<u8>) -> bool
    decreases v.len() - i,
{
    let c = find_either(v, i, COMMA, COMMA);
    i <= c < v.len() && (eq_ignore_case(trimmed(v, i, c), t) || list_init_has(v, c + 1, t))
}

/// The last element of the comma-separated list `v[i..]`, whitespace cut off.
pub open spec fn list_last(v: Seq<u8>, i: int) -> Seq<u8>
    decreases v.len() - i,
{
    let c = find_either(v, i, COMMA, COMMA);
    if i <= c < v.len() {
        list_last(v, c + 1)
    } else {
        trimmed(v, i, v.len() as int)
    }
}

pub proof fn lemma_find_either(s: Seq<u8>, i: int, x: u8, y: u8)
    requires
        0 <= i <= s.len(),
    ensures
        i <= find_either(s, i, x, y) <= s.len(),
        find_either(s, i, x, y) < s.len() ==> (s[find_either(s, i, x, y)] == x || s[find_either(
            s,
            i,
            x,
            y,
        )] == y),
        forall|k: int| i <= k < find_either(s, i, x, y) ==> s[k] != x && s[k] != y,
    decreases s.len() - i,
{
    if i < s.len() && s[i] != x && s[i] != y {
        lemma_find_either(s, i + 1, x, y);
    }
}

/// Appending bytes does not move a match that was already found.
pub proof fn lemma_find_either_extend(s: Seq<u8>, t: Seq<u8>, i: int, x: u8, y: u8)
    requires
        0 <= i <= s.len(),
        find_either(s, i, x, y) < s.len(),
    ensures
        find_either(s + t, i, x, y) == find_either(s, i, x, y),
    decreases s.len() - i,
{
    if s[i] != x && s[i] != y {
        lemma_find_either_extend(s, t, i + 1, x, y);
    }
}

pub fn to_lower(b: u8) -> (r: u8)
    ensures
        r == lower(b),
{
    if b >= 65 && b <= 90 {
        b + 32
    } else {
        b
    }
}

pub fn eq_ignore_case_bytes(a: &[u8], b: &[u8]) -> (r: bool)
    ensures
        r == eq_ignore_case(a@, b@),
{
    if a.len() != b.len() {
        return false;
    }
    let mut i: usize = 0;
    while i < a.len()
        invariant
            a@.len() == b@.len(),
            0 <= i <= a@.len(),
            forall|k: int| 0 <= k < i ==> lower(#[trigger] a@[k]) == lower(b@[k]),
        decreases a@.len() - i,
    {
        if to_lower(a[i]) != to_lower(b[i]) {
            return false;
        }
        i += 1;
    }
    true
}

pub fn find_either_at(s: &[u8], i: usize, x: u8, y: u8) -> (r: usize)
    requires
        i <= s@.len(),
    ensures
        r == find_either(s@, i as int, x, y),
        i <= r <= s@.len(),
{
    proof {
        lemma_find_either(s@, i as int, x, y);
    }
    let mut k = i;
    while k < s.len() && s[k] != x && s[k] != y
        invariant
            i <= k <= s@.len(),
            find_either(s@, k as int, x, y) == find_either(s@, i as int, x, y),
        decreases s@.len() - k,
    {
        k += 1;
    }
    k
}

/// The bounds of `s[i..j]` once surrounding whitespace is cut off.
pub fn trim_range(s: &[u8], i: usize, j: usize) -> (r: (usize, usize))
    requires
        i <= j <= s@.len(),
    ensures
        r.0 == skip_ws(s@, i as int, j as int),
        r.1 == back_ws(s@, r.0 as int, j as int),
        i <= r.0 <= r.1 <= j,
{
    let mut a = i;
    while a < j && (s[a] == SP || s[a] == 9)
        invariant
            i <= a <= j <= s@.len(),
            skip_ws(s@, a as int, j as int) == skip_ws(s@, i as int, j as int),
        decreases j - a,
    {
        a += 1;
    }
    let mut e = j;
    while e > a && (s[e - 1] == SP || s[e - 1] == 9)
        invariant
            i <= a <= e <= j <= s@.len(),
            skip_ws(s@, a as int, j as int) == a,
            back_ws(s@, a as int, e as int) == back_ws(s@, a as int, j as int),
        decreases e - a,
    {
        e -= 1;
    }
    (a, e)
}

/// Whether the comma-separated list `v` holds `t`, ignoring case.
pub fn list_contains(v: &[u8], t: &[u8]) -> (r: bool)
    ensures
        r == list_has(v@, 0, t@),
{
    let mut i: usize = 0;
    loop
        invariant
            0 <= i <= v@.len(),
            list_has(v@, i as int, t@) == list_has(v@, 0, t@),
        decreases v@.len() - i,
    {
        let c = find_either_at(v, i, COMMA, COMMA);
        let (a, e) = trim_range(v, i, c);
        if eq_ignore_case_bytes(&v[a..e], t) {
            return true;
        }
        if c >= v.len() {
            return false;
        }
        i = c + 1;
    }
}

/// Whether an element of the comma-separated list `v` other than its last one
/// is `t`, ignoring case.
pub fn list_init_contains(v: &[u8], t: &[u8]) -> (r: bool)
    ensures
        r == list_init_has(v@, 0, t@),
{
    let mut i: usize = 0;
    loop
        invariant
            0 <= i <= v@.len(),
            list_init_has(v@, i as int, t@) == list_init_has(v@, 0, t@),
        decreases v@.len() - i,
    {
        let c = find_either_at(v, i, COMMA, COMMA);
        if c >= v.len() {
            return false;
        }
        let (a, e) = trim_range(v, i, c);
        if eq_ignore_case_bytes(&v[a..e], t) {
            return true;
        }
        i = c + 1;
    }
}

/// The last element of the comma-separated list `v`, as a range of `v`.
pub fn list_last_range(v: &[u8]) -> (r: (usize, usize))
    ensures
        r.0 <= r.1 <= v@.len(),
        v@.subrange(r.0 as int, r.1 as int) == list_last(v@, 0),
{
    let mut i: usize = 0;
    loop
        invariant
            0 <= i <= v@.len(),
            list_last(v@, i as int) == list_last(v@, 0),
        decreases v@.len() - i,
    {
        let c = find_either_at(v, i, COMMA, COMMA);
        if c >= v.len() {
            return trim_range(v, i, v.len());
        }
        i = c + 1;
    }
}

pub proof fn lemma_decimal_take(s: Seq<u8>, i: int)
    requires
        0 <= i < s.len(),
    ensures
        decimal(s.take(i + 1)) == decimal(s.take(i)) * 10 + (s[i] - 48) as nat,
{
    assert(s.take(i + 1).drop_last() =~= s.take(i));
}

pub proof fn lemma_decimal_grows(s: Seq<u8>, i: int, j: int)
    requires
        0 <= i <= j <= s.len(),
        all_digits(s),
    ensures
        decimal(s.take(i)) <= decimal(s.take(j)),
    decreases j - i,
{
    if i < j {
        lemma_decimal_grows(s, i, j - 1);
        lemma_decimal_take(s, j - 1);
        assert(is_digit(s[j - 1]));
    }
}

/// The number spelled by a non-empty run of decimal digits that fits in 64 bits.
pub fn parse_decimal(s: &[u8]) -> (r: Option<u64>)
    ensures
        r.is_some() <==> (s@.len() > 0 && all_digits(s@) && decimal(s@) <= u64::MAX),
        r.is_some() ==> r.unwrap() == decimal(s@),
{
    if s.len() == 0 {
        return None;
    }
    let mut acc: u64 = 0;
    let mut i: usize = 0;
    while i < s.len()
        invariant
            0 <= i <= s@.len(),
            forall|k: int| 0 <= k < i ==> is_digit(#[trigger] s@[k]),
            acc == decimal(s@.take(i as int)),
        decreases s@.len() - i,
    {
        let b = s[i];
        if b < 48 || b > 57 {
            return None;
        }
        proof {
            lemma_decimal_take(s@, i as int);
        }
        let d = (b - 48) as u64;
        if acc > (u64::MAX - d) / 10 {
            proof {
                assert(decimal(s@.take(i as int + 1)) > u64::MAX) by (nonlinear_arith)
                    requires
                        decimal(s@.take(i as int + 1)) == decimal(s@.take(i as int)) * 10 + d,
                        acc == decimal(s@.take(i as int)),
                        acc > (u64::MAX - d) / 10,
                ;
                if all_digits(s@) {
                    lemma_decimal_grows(s@, i as int + 1, s@.len() as int);
                    assert(s@.take(s@.len() as int) =~= s@);
                }
            }
            return None;
        }
        acc = acc * 10 + d;
        i += 1;
    }
    assert(s@.take(s@.len() as int) =~= s@);
    Some(acc)
}

/// Appends `n` in lower-case hexadecimal.
pub fn push_hex(n: u64, dst: &mut Vec<u8>)
    ensures
        final(dst)@ == old(dst)@ + hex_of(n as nat),
    decreases n,
{
    if n >= 16 {
        push_hex(n / 16, dst);
    }
    let d = (n % 16) as u8;
    let c = if d < 10 {
        48 + d
    } else {
        87 + d
    };
    dst.push(c);
    assert(final(dst)@ =~= old(dst)@ + hex_of(n as nat));
}

/// Appends all of `src`.
pub fn push_all(dst: &mut Vec<u8>, src: &[u8])
    ensures
        final(dst)@ == old(dst)@ + src@,
{
    let mut i: usize = 0;
    while i < src.len()
        invariant
            0 <= i <= src@.len(),
            dst@ == old(dst)@ + src@.take(i as int),
        decreases src@.len() - i,
    {
        dst.push(src[i]);
        i += 1;
        assert(dst@ =~= old(dst)@ + src@.take(i as int));
    }
    assert(src@.take(src@.len() as int) =~= src@);
}

/// Appends `src[a..b]`.
pub fn copy_range(src: &[u8], a: usize, b: usize) -> (r: Vec<u8>)
    requires
        a <= b <= src@.len(),
    ensures
        r@ == src@.subrange(a as int, b as int),
{
    let mut r: Vec<u8> = Vec::new();
    push_all(&mut r, &src[a..b]);
    assert(r@ =~= src@.subrange(a as int, b as int));
    r
}

} // verus!
