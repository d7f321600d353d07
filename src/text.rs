//! Byte-level text helpers for the protocol parsers: trimming of Unicode
//! whitespace (as `char::is_whitespace` has it), separator splitting,
//! case-insensitive comparison and unsigned decimal parsing as `FromStr` does it.
use vstd::prelude::*;
use vstd::string::StringSliceAdditionalSpecFns;
use vstd::utf8::valid_utf8;

verus! {

/// ASCII whitespace: space, tab, line feed, vertical tab, form feed, carriage return.
pub open spec fn is_ws(c: u8) -> bool {
    c == 32 || (9 <= c && c <= 13)
}

/// The UTF-8 encoding of a three-byte whitespace character: U+1680,
/// U+2000 to U+200A, U+2028, U+2029, U+202F, U+205F or U+3000.
pub open spec fn is_ws3(x: u8, y: u8, z: u8) -> bool {
    (x == 0xE1 && y == 0x9A && z == 0x80) || (x == 0xE2 && y == 0x80 && ((0x80 <= z && z <= 0x8A)
        || z == 0xA8 || z == 0xA9 || z == 0xAF)) || (x == 0xE2 && y == 0x81 && z == 0x9F) || (x
        == 0xE3 && y == 0x80 && z == 0x80)
}

/// Length of the whitespace character (Unicode `White_Space`, as Rust's
/// `char::is_whitespace`) that starts at `i` within `[i, e)`, or 0. Two-byte
/// ones are U+0085 and U+00A0.
pub open spec fn ws_len_at(b: Seq<u8>, i: int, e: int) -> int {
    if i < e && is_ws(b[i]) {
        1
    } else if i + 2 <= e && b[i] == 0xC2 && (b[i + 1] == 0x85 || b[i + 1] == 0xA0) {
        2
    } else if i + 3 <= e && is_ws3(b[i], b[i + 1], b[i + 2]) {
        3
    } else {
        0
    }
}

/// Length of the whitespace character that ends at `e` within `[s, e)`, or 0.
pub open spec fn ws_len_before(b: Seq<u8>, s: int, e: int) -> int {
    if s < e && is_ws(b[e - 1]) {
        1
    } else if s + 2 <= e && b[e - 2] == 0xC2 && (b[e - 1] == 0x85 || b[e - 1] == 0xA0) {
        2
    } else if s + 3 <= e && is_ws3(b[e - 3], b[e - 2], b[e - 1]) {
        3
    } else {
        0
    }
}

/// First position in `[s, e)` that is not whitespace (`e` when none).
pub open spec fn trim_start(b: Seq<u8>, s: int, e: int) -> int
    decreases e - s,
{
    if s < e && ws_len_at(b, s, e) > 0 {
        trim_start(b, s + ws_len_at(b, s, e), e)
    } else {
        s
    }
}

/// End of `[s, e)` without its trailing whitespace.
pub open spec fn trim_end(b: Seq<u8>, s: int, e: int) -> int
    decreases e - s,
{
    if s < e && ws_len_before(b, s, e) > 0 {
        trim_end(b, s, e - ws_len_before(b, s, e))
    } else {
        e
    }
}

/// The range `[s, e)` without leading and trailing whitespace.
pub open spec fn trimmed(b: Seq<u8>, s: int, e: int) -> (int, int) {
    let s2 = trim_start(b, s, e);
    (s2, trim_end(b, s2, e))
}

/// First position in `[s, e)` holding `c` (`e` when none).
pub open spec fn find_from(b: Seq<u8>, s: int, e: int, c: u8) -> int
    decreases e - s,
{
    if s >= e {
        e
    } else if b[s] == c {
        s
    } else {
        find_from(b, s + 1, e, c)
    }
}

/// The fields of `[s, e)` separated by `sep`, as ranges (like `str::split`).
pub open spec fn split_fields(b: Seq<u8>, s: int, e: int, sep: u8) -> Seq<(int, int)>
    decreases e - s + 1,
{
    let c = find_from(b, s, e, sep);
    if s > e {
        Seq::empty()
    } else if s <= c && c < e {
        seq![(s, c)] + split_fields(b, c + 1, e, sep)
    } else {
        seq![(s, e)]
    }
}

pub open spec fn is_digit(c: u8) -> bool {
    48 <= c && c <= 57
}

/// Value of a string of decimal digits.
pub open spec fn digits_value(d: Seq<u8>) -> int
    decreases d.len(),
{
    if d.len() == 0 {
        0
    } else {
        digits_value(d.drop_last()) * 10 + (d.last() - 48)
    }
}

/// An unsigned decimal as Rust's `FromStr` reads it: an optional `+`, then at
/// least one digit and nothing else, of value at most `max`.
pub open spec fn parse_uint_spec(t: Seq<u8>, max: int) -> Option<int> {
    let d = unsigned_digits(t);
    if d.len() == 0 || !all_digits(d) || digits_value(d) > max {
        None
    } else {
        Some(digits_value(d))
    }
}

/// `t` without a leading `+`.
pub open spec fn unsigned_digits(t: Seq<u8>) -> Seq<u8> {
    if t.len() > 0 && t[0] == 43 {
        t.skip(1)
    } else {
        t
    }
}

/// Every byte is a decimal digit.
pub open spec fn all_digits(d: Seq<u8>) -> bool {
    forall|i: int| 0 <= i < d.len() ==> is_digit(#[trigger] d[i])
}

/// ASCII lower case of one byte.
pub open spec fn ascii_lower(c: u8) -> u8 {
    if 65 <= c && c <= 90 {
        (c + 32) as u8
    } else {
        c
    }
}

/// Equal up to ASCII case.
pub open spec fn eq_ignore_case(a: Seq<u8>, b: Seq<u8>) -> bool {
    a.len() == b.len() && forall|i: int| 0 <= i < a.len() ==> ascii_lower(#[trigger] a[i])
        == ascii_lower(b[i])
}

pub fn is_ws_byte(c: u8) -> (r: bool)
    ensures
        r == is_ws(c),
{
    c == 32 || (9 <= c && c <= 13)
}

fn is_ws3_bytes(x: u8, y: u8, z: u8) -> (r: bool)
    ensures
        r == is_ws3(x, y, z),
{
    (x == 0xE1 && y == 0x9A && z == 0x80) || (x == 0xE2 && y == 0x80 && ((0x80 <= z && z <= 0x8A)
        || z == 0xA8 || z == 0xA9 || z == 0xAF)) || (x == 0xE2 && y == 0x81 && z == 0x9F) || (x
        == 0xE3 && y == 0x80 && z == 0x80)
}

/// Length of the whitespace character starting at `i` within `[i, e)`, or 0.
pub fn ws_len_at_exec(b: &[u8], i: usize, e: usize) -> (r: usize)
    requires
        i <= e <= b@.len(),
    ensures
        r == ws_len_at(b@, i as int, e as int),
        r <= 3,
        r > 0 ==> i + r <= e,
{
    if i < e && is_ws_byte(b[i]) {
        1
    } else if e - i >= 2 && b[i] == 0xC2 && (b[i + 1] == 0x85 || b[i + 1] == 0xA0) {
        2
    } else if e - i >= 3 && is_ws3_bytes(b[i], b[i + 1], b[i + 2]) {
        3
    } else {
        0
    }
}

fn ws_len_before_exec(b: &[u8], s: usize, e: usize) -> (r: usize)
    requires
        s <= e <= b@.len(),
    ensures
        r == ws_len_before(b@, s as int, e as int),
        r <= 3,
        r > 0 ==> s + r <= e,
{
    if s < e && is_ws_byte(b[e - 1]) {
        1
    } else if e - s >= 2 && b[e - 2] == 0xC2 && (b[e - 1] == 0x85 || b[e - 1] == 0xA0) {
        2
    } else if e - s >= 3 && is_ws3_bytes(b[e - 3], b[e - 2], b[e - 1]) {
        3
    } else {
        0
    }
}

/// The range `[s, e)` of `b` without leading and trailing whitespace.
pub fn trim(b: &[u8], s: usize, e: usize) -> (r: (usize, usize))
    requires
        s <= e <= b@.len(),
    ensures
        r.0 == trimmed(b@, s as int, e as int).0,
        r.1 == trimmed(b@, s as int, e as int).1,
        s <= r.0 <= r.1 <= e,
{
    let mut i = s;
    while i < e && ws_len_at_exec(b, i, e) > 0
        invariant
            s <= i <= e <= b@.len(),
            trim_start(b@, s as int, e as int) == trim_start(b@, i as int, e as int),
        decreases e - i,
    {
        i = i + ws_len_at_exec(b, i, e);
    }
    let mut j = e;
    while j > i && ws_len_before_exec(b, i, j) > 0
        invariant
            i <= j <= e <= b@.len(),
            trim_end(b@, i as int, e as int) == trim_end(b@, i as int, j as int),
        decreases j - i,
    {
        j = j - ws_len_before_exec(b, i, j);
    }
    (i, j)
}

/// First position in `[s, e)` holding `c`, or `e`.
pub fn find_byte(b: &[u8], s: usize, e: usize, c: u8) -> (r: usize)
    requires
        s <= e <= b@.len(),
    ensures
        r == find_from(b@, s as int, e as int, c),
        s <= r <= e,
        r < e ==> b@[r as int] == c,
        forall|k: int| s <= k < r ==> b@[k] != c,
{
    let mut i = s;
    while i < e && b[i] != c
        invariant
            s <= i <= e <= b@.len(),
            find_from(b@, s as int, e as int, c) == find_from(b@, i as int, e as int, c),
            forall|k: int| s <= k < i ==> b@[k] != c,
        decreases e - i,
    {
        i = i + 1;
    }
    i
}

proof fn lemma_digits_prefix_grows(d: Seq<u8>, i: int)
    requires
        0 <= i <= d.len(),
        forall|k: int| 0 <= k < d.len() ==> is_digit(#[trigger] d[k]),
    ensures
        digits_value(d) >= digits_value(d.take(i)),
        digits_value(d.take(i)) >= 0,
    decreases d.len() - i,
{
    if i < d.len() {
        lemma_digits_prefix_grows(d, i + 1);
        assert(d.take(i + 1).drop_last() == d.take(i));
    } else {
        assert(d.take(i) == d);
        lemma_digits_nonneg(d);
    }
}

proof fn lemma_digits_nonneg(d: Seq<u8>)
    requires
        forall|k: int| 0 <= k < d.len() ==> is_digit(#[trigger] d[k]),
    ensures
        digits_value(d) >= 0,
    decreases d.len(),
{
    if d.len() > 0 {
        lemma_digits_nonneg(d.drop_last());
    }
}

/// Parses `b[s..e]` as an unsigned decimal of value at most `max`.
pub fn parse_uint(b: &[u8], s: usize, e: usize, max: u64) -> (r: Option<u64>)
    requires
        s <= e <= b@.len(),
    ensures
        r == match parse_uint_spec(b@.subrange(s as int, e as int), max as int) {
            Some(v) => Some(v as u64),
            None => None::<u64>,
        },
        parse_uint_spec(b@.subrange(s as int, e as int), max as int) matches Some(v) ==> 0 <= v
            <= max,
{
    let ghost t = b@.subrange(s as int, e as int);
    let mut i = s;
    if i < e && b[i] == 43 {
        i = i + 1;
    }
    let ghost d = b@.subrange(i as int, e as int);
    assert(d == unsigned_digits(t));
    if i == e {
        return None;
    }
    let start = i;
    let mut acc: u64 = 0;
    while i < e
        invariant
            s <= start <= i <= e <= b@.len(),
            d == b@.subrange(start as int, e as int),
            t == b@.subrange(s as int, e as int),
            d == unsigned_digits(t),
            forall|k: int| 0 <= k < i - start ==> is_digit(#[trigger] d[k]),
            acc == digits_value(d.take(i - start)),
            acc <= max,
        decreases e - i,
    {
        let c = b[i];
        if c < 48 || c > 57 {
            assert(!is_digit(d[i - start]));
            assert(!all_digits(d));
            assert(parse_uint_spec(t, max as int) is None);
            return None;
        }
        let dv = (c - 48) as u64;
        assert(d.take(i - start + 1).drop_last() == d.take(i - start));
        if max < dv || acc > (max - dv) / 10 {
            proof {
                assert(acc * 10 + dv > max) by (nonlinear_arith)
                    requires
                        max < dv || acc > (max - dv) / 10,
                        dv <= 9,
                ;
                assert(forall|k: int| 0 <= k < i - start + 1 ==> is_digit(#[trigger] d[k]));
                assert(digits_value(d.take(i - start + 1)) == acc * 10 + dv);
                if all_digits(d) {
                    lemma_digits_prefix_grows(d, i - start + 1);
                }
                assert(parse_uint_spec(t, max as int) is None);
            }
            return None;
        }
        acc = acc * 10 + dv;
        i = i + 1;
    }
    assert(d.take(e - start) == d);
    proof {
        lemma_digits_nonneg(d);
    }
    Some(acc)
}

/// Whether `a[sa..sa+n]` equals `b` up to ASCII case, with `n == b.len()`.
pub fn eq_ignore_case_at(a: &[u8], sa: usize, ea: usize, b: &[u8]) -> (r: bool)
    requires
        sa <= ea <= a@.len(),
    ensures
        r == eq_ignore_case(a@.subrange(sa as int, ea as int), b@),
{
    if ea - sa != b.len() {
        return false;
    }
    let mut i: usize = 0;
    while i < b.len()
        invariant
            ea - sa == b@.len(),
            sa <= ea <= a@.len(),
            i <= b@.len(),
            forall|k: int| 0 <= k < i ==> ascii_lower(#[trigger] a@[sa + k]) == ascii_lower(b@[k]),
        decreases b@.len() - i,
    {
        let x = a[sa + i];
        let y = b[i];
        let lx = if 65 <= x && x <= 90 {
            x + 32
        } else {
            x
        };
        let ly = if 65 <= y && y <= 90 {
            y + 32
        } else {
            y
        };
        assert(lx == ascii_lower(x) && ly == ascii_lower(y));
        if lx != ly {
            assert(a@.subrange(sa as int, ea as int)[i as int] == x);
            return false;
        }
        i = i + 1;
    }
    assert forall|k: int| 0 <= k < b@.len() implies ascii_lower(
        #[trigger] a@.subrange(sa as int, ea as int)[k],
    ) == ascii_lower(b@[k]) by {
        assert(a@.subrange(sa as int, ea as int)[k] == a@[sa + k]);
    }
    true
}

/// Relies on core::str::from_utf8: it succeeds exactly on valid UTF-8 and the
/// text it returns has the same bytes.
#[verifier::external_body]
pub(crate) fn utf8_text(b: &[u8]) -> (r: Option<&str>)
    ensures
        r is Some <==> valid_utf8(b@),
        r matches Some(s) ==> s.spec_bytes() == b@,
{
    core::str::from_utf8(b).ok()
}

} // verus!

verus! {

/// Whether `a[sa..ea]` equals `b` exactly.
pub fn eq_bytes_at(a: &[u8], sa: usize, ea: usize, b: &[u8]) -> (r: bool)
    requires
        sa <= ea <= a@.len(),
    ensures
        r == (a@.subrange(sa as int, ea as int) == b@),
{
    if ea - sa != b.len() {
        return false;
    }
    let mut i: usize = 0;
    while i < b.len()
        invariant
            ea - sa == b@.len(),
            sa <= ea <= a@.len(),
            i <= b@.len(),
            forall|k: int| 0 <= k < i ==> a@[sa + k] == b@[k],
        decreases b@.len() - i,
    {
        if a[sa + i] != b[i] {
            assert(a@.subrange(sa as int, ea as int)[i as int] != b@[i as int]);
            return false;
        }
        i = i + 1;
    }
    assert(a@.subrange(sa as int, ea as int) =~= b@);
    true
}

} // verus!
