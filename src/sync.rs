//! Parsing of the authorization server's HTTP responses: status line, headers,
//! the JSON array of credentials, and the dotted IPv4 address of the server.
use vstd::prelude::*;
use vstd::string::StringSliceAdditionalSpecFns;
use vstd::utf8::{is_char_boundary, valid_utf8};

use crate::events::AccessEvent;
use crate::fob_list::{Etag, FobList, MAX_ETAG, min_len};
use crate::shared::Shared;
use crate::storage::{etag_text, Storage};
use crate::text::{
    eq_bytes_at, eq_ignore_case, eq_ignore_case_at, find_byte, find_from, parse_uint,
    parse_uint_spec, split_fields, trim, trim_start, trimmed, utf8_text, ws_len_at,
    ws_len_at_exec,
};
use crate::MAX_FOBS;

verus! {

/// Position of the line feed ending the line that starts at `pos`, or `e`.
pub open spec fn line_break(b: Seq<u8>, pos: int, e: int) -> int {
    find_from(b, pos, e, 10)
}

/// End of the line starting at `pos`, without its `\n` or `\r\n` ending.
pub open spec fn line_content_end(b: Seq<u8>, pos: int, e: int) -> int {
    let le = line_break(b, pos, e);
    if le < e && le > pos && b[le - 1] == 13 {
        le - 1
    } else {
        le
    }
}

/// Start of the line after the one starting at `pos` (`e` after the last line).
pub open spec fn next_line(b: Seq<u8>, pos: int, e: int) -> int {
    let le = line_break(b, pos, e);
    if le < e {
        le + 1
    } else {
        e
    }
}

/// First position in `[s, e)` where a whitespace character starts, or `e`.
pub open spec fn ws_from(b: Seq<u8>, s: int, e: int) -> int
    decreases e - s,
{
    if s >= e {
        e
    } else if ws_len_at(b, s, e) > 0 {
        s
    } else {
        ws_from(b, s + 1, e)
    }
}

/// The second whitespace-separated word of the first line of `b[..e]`, read
/// as a `u16`.
pub open spec fn status_of(b: Seq<u8>, e: int) -> Option<int> {
    let ce = line_break(b, 0, e);
    let s1 = trim_start(b, 0, ce);
    let e1 = ws_from(b, s1, ce);
    let s2 = trim_start(b, e1, ce);
    let e2 = ws_from(b, s2, ce);
    if s1 >= ce || s2 >= ce {
        None
    } else {
        parse_uint_spec(b.subrange(s2, e2), 0xFFFF)
    }
}

/// The status code of a response: the second whitespace-separated word of its
/// first line read as a `u16`; 0 when there is none or it does not parse.
pub open spec fn status_code_spec(b: Seq<u8>) -> u16 {
    match status_of(b, b.len() as int) {
        Some(v) => v as u16,
        None => 0,
    }
}

/// The value range of the first header named `name` (ASCII case ignored) in
/// the lines from `pos`, searching up to the first empty line.
pub open spec fn header_value_spec(b: Seq<u8>, pos: int, e: int, name: Seq<u8>) -> Option<
    (int, int),
>
    decreases e - pos,
{
    if pos >= e {
        None
    } else {
        let ce = line_content_end(b, pos, e);
        let colon = find_from(b, pos, ce, 58);
        let key = trimmed(b, pos, colon);
        let nx = next_line(b, pos, e);
        if ce <= pos || (ce == pos + 1 && b[pos] == 13) {
            None
        } else if colon < ce && eq_ignore_case(b.subrange(key.0, key.1), name) {
            Some(trimmed(b, colon + 1, ce))
        } else if nx > pos {
            header_value_spec(b, nx, e, name)
        } else {
            None
        }
    }
}

/// First position at or after `s` where `b` holds `\r\n\r\n`.
pub open spec fn blank_line_at(b: Seq<u8>, i: int) -> bool {
    0 <= i && i + 4 <= b.len() && b[i] == 13 && b[i + 1] == 10 && b[i + 2] == 13 && b[i + 3] == 10
}

/// The first position from `i` on where `b` holds `\r\n\r\n`.
pub open spec fn header_end_from(b: Seq<u8>, i: int) -> Option<int>
    decreases b.len() - i,
{
    if i < 0 || i + 4 > b.len() {
        None
    } else if blank_line_at(b, i) {
        Some(i)
    } else {
        header_end_from(b, i + 1)
    }
}

/// Finds the `\r\n\r\n` that ends the headers.
pub fn find_header_end(data: &[u8]) -> (r: Option<usize>)
    ensures
        match r {
            Some(j) => header_end_from(data@, 0) == Some(j as int) && j + 4 <= data@.len(),
            None => header_end_from(data@, 0) is None,
        },
        r matches Some(i) ==> blank_line_at(data@, i as int) && forall|j: int|
            0 <= j < i ==> !blank_line_at(data@, j),
        r is None ==> forall|j: int| 0 <= j ==> !blank_line_at(data@, j),
{
    if data.len() < 4 {
        return None;
    }
    let mut i: usize = 0;
    while i <= data.len() - 4
        invariant
            data@.len() >= 4,
            header_end_from(data@, 0) == header_end_from(data@, i as int),
            forall|j: int| 0 <= j < i ==> !blank_line_at(data@, j),
        decreases data@.len() - i,
    {
        if data[i] == 13 && data[i + 1] == 10 && data[i + 2] == 13 && data[i + 3] == 10 {
            return Some(i);
        }
        i = i + 1;
    }
    None
}

fn ws_from_exec(b: &[u8], s: usize, e: usize) -> (r: usize)
    requires
        s <= e <= b@.len(),
    ensures
        r == ws_from(b@, s as int, e as int),
        s <= r <= e,
{
    let mut i = s;
    while i < e && ws_len_at_exec(b, i, e) == 0
        invariant
            s <= i <= e <= b@.len(),
            ws_from(b@, s as int, e as int) == ws_from(b@, i as int, e as int),
        decreases e - i,
    {
        i = i + 1;
    }
    i
}

fn status_in(b: &[u8], e: usize) -> (r: Option<u16>)
    requires
        e <= b@.len(),
    ensures
        match status_of(b@, e as int) {
            Some(v) => r == Some(v as u16) && 0 <= v <= 0xFFFF,
            None => r is None,
        },
{
    let ce = find_byte(b, 0, e, 10);
    let (s1, _) = trim(b, 0, ce);
    let e1 = ws_from_exec(b, s1, ce);
    let (s2, _) = trim(b, e1, ce);
    let e2 = ws_from_exec(b, s2, ce);
    if s1 >= ce || s2 >= ce {
        return None;
    }
    match parse_uint(b, s2, e2, 0xFFFF) {
        Some(v) => Some(v as u16),
        None => None,
    }
}

/// The HTTP status code of a response, 0 when the status line has none.
pub fn parse_status_code(response: &str) -> (r: u16)
    ensures
        r == status_code_spec(response.spec_bytes()),
{
    let b = response.as_bytes();
    match status_in(b, b.len()) {
        Some(v) => v,
        None => 0,
    }
}

fn line_bounds(b: &[u8], pos: usize, e: usize) -> (r: (usize, usize))
    requires
        pos < e <= b@.len(),
    ensures
        r.0 == line_content_end(b@, pos as int, e as int),
        r.1 == next_line(b@, pos as int, e as int),
        pos <= r.0 <= e,
        pos < r.1 <= e,
{
    let le = find_byte(b, pos, e, 10);
    let ce = if le < e && le > pos && b[le - 1] == 13 {
        le - 1
    } else {
        le
    };
    let nx = if le < e {
        le + 1
    } else {
        e
    };
    (ce, nx)
}

/// Byte range of the value of header `name` in `b`.
pub fn header_value_range(b: &[u8], name: &[u8]) -> (r: Option<(usize, usize)>)
    ensures
        r matches Some(x) ==> x.0 <= x.1 <= b@.len(),
        match header_value_spec(b@, 0, b@.len() as int, name@) {
            Some(x) => r matches Some(y) && y.0 == x.0 && y.1 == x.1,
            None => r is None,
        },
{
    let e = b.len();
    let mut pos: usize = 0;
    while pos < e
        invariant
            pos <= e == b@.len(),
            header_value_spec(b@, 0, e as int, name@) == header_value_spec(
                b@,
                pos as int,
                e as int,
                name@,
            ),
        decreases e - pos,
    {
        let (ce, nx) = line_bounds(b, pos, e);
        if ce <= pos || (ce == pos + 1 && b[pos] == 13) {
            return None;
        }
        let colon = find_byte(b, pos, ce, 58);
        let (ks, ke) = trim(b, pos, colon);
        if colon < ce && eq_ignore_case_at(b, ks, ke, name) {
            let (vs, ve) = trim(b, colon + 1, ce);
            return Some((vs, ve));
        }
        pos = nx;
    }
    None
}

/// The trimmed value of the first header named `name` (ASCII case ignored),
/// looking no further than the first empty line.
pub fn extract_header<'a>(response: &'a str, name: &str) -> (r: Option<&'a str>)
    ensures
        match header_value_spec(response.spec_bytes(), 0, response.spec_bytes().len() as int, name.spec_bytes()) {
            None => r is None,
            Some(x) => {
                &&& r is Some <==> (is_char_boundary(response.spec_bytes(), x.1)
                    && is_char_boundary(response.spec_bytes().subrange(0, x.1), x.0))
                &&& r matches Some(v) ==> v.spec_bytes() == response.spec_bytes().subrange(x.0, x.1)
            },
        },
{
    let b = response.as_bytes();
    match header_value_range(b, name.as_bytes()) {
        None => None,
        Some((s, t)) => {
            if !response.is_char_boundary(t) {
                return None;
            }
            let (head, _) = response.split_at(t);
            if !head.is_char_boundary(s) {
                return None;
            }
            let (_, value) = head.split_at(s);
            proof {
                assert(value.spec_bytes() =~= response.spec_bytes().subrange(s as int, t as int));
            }
            Some(value)
        },
    }
}

} // verus!

verus! {

/// The credentials of the fields of `[s, e)` separated by commas: each field
/// trimmed and read as a `u32`, fields that do not parse (or are empty) skipped.
pub open spec fn fob_values(b: Seq<u8>, s: int, e: int) -> Seq<u32>
    decreases e - s + 1,
{
    let c = find_from(b, s, e, 44);
    let p = trimmed(b, s, c);
    let here = match parse_uint_spec(b.subrange(p.0, p.1), u32::MAX as int) {
        Some(v) => seq![v as u32],
        None => Seq::<u32>::empty(),
    };
    if s > e {
        Seq::empty()
    } else if s <= c && c < e {
        here + fob_values(b, c + 1, e)
    } else {
        here
    }
}

/// The credential list a JSON array holds: `None` unless the trimmed text
/// starts with `[` and ends with `]`; at most the first `MAX_FOBS` values.
pub open spec fn fob_list_spec(b: Seq<u8>) -> Option<Seq<u32>> {
    let t = trimmed(b, 0, b.len() as int);
    if t.0 >= t.1 || b[t.0] != 91 || b[t.1 - 1] != 93 {
        None
    } else {
        let v = fob_values(b, t.0 + 1, t.1 - 1);
        Some(v.take(min_len(v.len(), MAX_FOBS as nat) as int))
    }
}

fn fob_list_from_bytes(b: &[u8]) -> (r: Option<FobList>)
    ensures
        match fob_list_spec(b@) {
            None => r is None,
            Some(v) => r matches Some(l) && l@ == v,
        },
{
    let (ts, te) = trim(b, 0, b.len());
    if ts >= te || b[ts] != 91 || b[te - 1] != 93 {
        return None;
    }
    let start = ts + 1;
    let end = te - 1;
    let ghost all = fob_values(b@, start as int, end as int);
    let ghost mut acc: Seq<u32> = Seq::empty();
    let mut list = FobList::new();
    let mut pos = start;
    let mut more = true;
    assert(fob_list_spec(b@) == Some(all.take(min_len(all.len(), MAX_FOBS as nat) as int)));
    while more
        invariant
            start <= pos <= end,
            end < b@.len(),
            fob_list_spec(b@) == Some(all.take(min_len(all.len(), MAX_FOBS as nat) as int)),
            all == fob_values(b@, start as int, end as int),
            more ==> all == acc + fob_values(b@, pos as int, end as int),
            !more ==> all == acc,
            acc.len() <= MAX_FOBS,
            list@ == acc,
        decreases end - pos + (if more {
            1int
        } else {
            0int
        }),
    {
        let c = find_byte(b, pos, end, 44);
        let (ps, pe) = trim(b, pos, c);
        let ghost here = match parse_uint_spec(b@.subrange(ps as int, pe as int), u32::MAX as int) {
            Some(v) => seq![v as u32],
            None => Seq::<u32>::empty(),
        };
        let ghost rest = if c < end {
            fob_values(b@, c + 1, end as int)
        } else {
            Seq::<u32>::empty()
        };
        assert(fob_values(b@, pos as int, end as int) == here + rest);
        match parse_uint(b, ps, pe, 0xFFFF_FFFF) {
            Some(v) => {
                if !list.push(v as u32) {
                    proof {
                        assert(all == acc + (here + rest));
                        assert(acc.len() == MAX_FOBS);
                        assert(all.len() > MAX_FOBS);
                        assert(min_len(all.len(), MAX_FOBS as nat) == MAX_FOBS);
                        assert(all.take(MAX_FOBS as int) =~= acc);
                        assert(fob_list_spec(b@) == Some(acc));
                    }
                    return Some(list);
                }
                proof {
                    acc = acc.push(v as u32);
                    assert(all == acc + rest) by {
                        assert(acc =~= (acc.drop_last() + here));
                    }
                }
            },
            None => {
                assert(here =~= Seq::<u32>::empty());
                assert(all == acc + rest);
            },
        }
        if c < end {
            pos = c + 1;
        } else {
            proof {
                assert(all == acc);
            }
            more = false;
        }
    }
    assert(all.take(all.len() as int) =~= all);
    Some(list)
}

/// Parses the server's JSON array of credentials: whitespace-trimmed, it must
/// start with `[` and end with `]`; comma-separated values that do not read as
/// `u32` are skipped, and only the first `MAX_FOBS` are kept.
pub fn parse_fob_list(json: &str) -> (r: Result<FobList, &'static str>)
    ensures
        match fob_list_spec(json.spec_bytes()) {
            None => r matches Err(m) && m@ == "not a JSON array"@,
            Some(v) => r matches Ok(l) && l@ == v,
        },
{
    match fob_list_from_bytes(json.as_bytes()) {
        Some(l) => Ok(l),
        None => Err("not a JSON array"),
    }
}

/// The four octets of a dotted IPv4 address: exactly four fields separated by
/// `.`, each a `u8` as Rust reads one.
pub open spec fn ipv4_spec(b: Seq<u8>) -> Option<Seq<u8>> {
    let f = split_fields(b, 0, b.len() as int, 46);
    if f.len() != 4 {
        None
    } else if forall|i: int|
        0 <= i < 4 ==> #[trigger] parse_uint_spec(b.subrange(f[i].0, f[i].1), 255) is Some {
        Some(Seq::new(4, |i: int| parse_uint_spec(b.subrange(f[i].0, f[i].1), 255).unwrap() as u8))
    } else {
        None
    }
}

proof fn lemma_split_fields_bounds(b: Seq<u8>, s: int, e: int, sep: u8)
    requires
        0 <= s,
        e <= b.len(),
    ensures
        forall|i: int|
            0 <= i < split_fields(b, s, e, sep).len() ==> s <= (#[trigger] split_fields(
                b,
                s,
                e,
                sep,
            )[i]).0 <= split_fields(b, s, e, sep)[i].1 <= e,
    decreases e - s + 1,
{
    let c = find_from(b, s, e, sep);
    if s <= e {
        lemma_find_from_bounds(b, s, e, sep);
        if s <= c && c < e {
            lemma_split_fields_bounds(b, c + 1, e, sep);
            let tail = split_fields(b, c + 1, e, sep);
            let all = split_fields(b, s, e, sep);
            assert(all == seq![(s, c)] + tail);
            assert forall|i: int| 0 <= i < all.len() implies s <= (#[trigger] all[i]).0 <= all[i].1
                <= e by {
                if i > 0 {
                    assert(all[i] == tail[i - 1]);
                }
            }
        }
    }
}

proof fn lemma_find_from_bounds(b: Seq<u8>, s: int, e: int, c: u8)
    requires
        s <= e,
    ensures
        s <= find_from(b, s, e, c) <= e,
    decreases e - s,
{
    if s < e && b[s] != c {
        lemma_find_from_bounds(b, s + 1, e, c);
    }
}

/// Parses a dotted IPv4 address such as `192.168.1.1`.
pub fn parse_ipv4(s: &str) -> (r: Option<[u8; 4]>)
    ensures
        match ipv4_spec(s.spec_bytes()) {
            None => r is None,
            Some(o) => r matches Some(a) && a@ == o,
        },
{
    let b = s.as_bytes();
    let e = b.len();
    let ghost all = split_fields(b@, 0, e as int, 46);
    let mut octets: [u8; 4] = [0, 0, 0, 0];
    let mut idx: usize = 0;
    let mut pos: usize = 0;
    proof {
        lemma_split_fields_bounds(b@, 0, e as int, 46);
    }
    let mut more = true;
    while more
        invariant
            pos <= e,
            e == b@.len(),
            b@ == s.spec_bytes(),
            idx <= 4,
            idx <= all.len(),
            all == split_fields(b@, 0, e as int, 46),
            more ==> all == all.take(idx as int) + split_fields(b@, pos as int, e as int, 46),
            !more ==> all.len() == idx,
            forall|i: int|
                0 <= i < idx ==> #[trigger] parse_uint_spec(b@.subrange(all[i].0, all[i].1), 255)
                    is Some && octets@[i] == parse_uint_spec(
                    b@.subrange(all[i].0, all[i].1),
                    255,
                ).unwrap() as u8,
        decreases e - pos + (if more {
            1int
        } else {
            0int
        }),
    {
        let c = find_byte(b, pos, e, 46);
        proof {
            lemma_split_fields_bounds(b@, pos as int, e as int, 46);
            assert(all[idx as int] == (pos as int, c as int));
            assert(all.len() > idx);
        }
        if idx >= 4 {
            assert(ipv4_spec(s.spec_bytes()) is None);
            return None;
        }
        match parse_uint(b, pos, c, 255) {
            Some(v) => {
                octets[idx] = v as u8;
            },
            None => {
                assert(parse_uint_spec(b@.subrange(all[idx as int].0, all[idx as int].1), 255)
                    is None);
                return None;
            },
        }
        idx = idx + 1;
        if c < e {
            proof {
                assert(all.take(idx as int) + split_fields(b@, c + 1, e as int, 46) =~= all);
            }
            pos = c + 1;
        } else {
            proof {
                assert(all.len() == idx);
            }
            more = false;
        }
    }
    if idx == 4 {
        assert(octets@ =~= ipv4_spec(b@).unwrap());
        Some(octets)
    } else {
        None
    }
}

} // verus!

verus! {

/// `content-length:`
pub open spec fn content_length_key() -> Seq<u8> {
    seq![99u8, 111, 110, 116, 101, 110, 116, 45, 108, 101, 110, 103, 116, 104, 58]
}

/// `etag:`
pub open spec fn etag_key() -> Seq<u8> {
    seq![101u8, 116, 97, 103, 58]
}

/// The line of `b[pos..e]` starts with `key` (ASCII case ignored).
pub open spec fn line_starts_with(b: Seq<u8>, pos: int, ce: int, key: Seq<u8>) -> bool {
    ce - pos >= key.len() && eq_ignore_case(b.subrange(pos, pos + key.len()), key)
}

/// The `Content-Length` of the header lines from `pos`: the first line that
/// starts with `content-length:` decides, its rest read as a `usize`.
pub open spec fn content_length_spec(b: Seq<u8>, pos: int, e: int) -> Option<int>
    decreases e - pos,
{
    if pos >= e {
        None
    } else {
        let ce = line_content_end(b, pos, e);
        let nx = next_line(b, pos, e);
        if line_starts_with(b, pos, ce, content_length_key()) {
            let v = trimmed(b, pos + 15, ce);
            parse_uint_spec(b.subrange(v.0, v.1), usize::MAX as int)
        } else if nx > pos {
            content_length_spec(b, nx, e)
        } else {
            None
        }
    }
}

/// Value range of the last `ETag:` line among the lines of `b[pos..e]`.
pub open spec fn last_etag_spec(b: Seq<u8>, pos: int, e: int) -> Option<(int, int)>
    decreases e - pos,
{
    if pos >= e {
        None
    } else {
        let ce = line_content_end(b, pos, e);
        let nx = next_line(b, pos, e);
        let later = if nx > pos {
            last_etag_spec(b, nx, e)
        } else {
            None
        };
        if later is Some {
            later
        } else if line_starts_with(b, pos, ce, etag_key()) {
            Some(trimmed(b, pos + 5, ce))
        } else {
            None
        }
    }
}

fn key_content_length() -> (r: [u8; 15])
    ensures
        r@ == content_length_key(),
{
    let r: [u8; 15] = [99, 111, 110, 116, 101, 110, 116, 45, 108, 101, 110, 103, 116, 104, 58];
    assert(r@ =~= content_length_key());
    r
}

fn key_etag() -> (r: [u8; 5])
    ensures
        r@ == etag_key(),
{
    let r: [u8; 5] = [101, 116, 97, 103, 58];
    assert(r@ =~= etag_key());
    r
}

/// The `Content-Length` of a header block; `None` when the block is not UTF-8,
/// has no such line, or the first such line's value does not read as a `usize`.
pub fn parse_content_length(header: &[u8]) -> (r: Option<usize>)
    ensures
        !valid_utf8(header@) ==> r is None,
        valid_utf8(header@) ==> match content_length_spec(header@, 0, header@.len() as int) {
            Some(v) => r == Some(v as usize),
            None => r is None,
        },
{
    if utf8_text(header).is_none() {
        return None;
    }
    let key = key_content_length();
    let e = header.len();
    let mut pos: usize = 0;
    while pos < e
        invariant
            pos <= e == header@.len(),
            valid_utf8(header@),
            key@ == content_length_key(),
            content_length_spec(header@, 0, e as int) == content_length_spec(
                header@,
                pos as int,
                e as int,
            ),
        decreases e - pos,
    {
        let (ce, nx) = line_bounds(header, pos, e);
        if ce - pos >= 15 && eq_ignore_case_at(header, pos, pos + 15, key.as_slice()) {
            let (vs, ve) = trim(header, pos + 15, ce);
            return match parse_uint(header, vs, ve, usize::MAX as u64) {
                Some(v) => Some(v as usize),
                None => None,
            };
        }
        pos = nx;
    }
    None
}

/// Why a server response was not accepted.
#[derive(Debug, Clone, Copy, PartialEq, Eq, Structural)]
pub enum SyncError {
    /// No blank line ends the headers.
    Malformed,
    /// The headers are not UTF-8.
    BadHeaderEncoding,
    /// The header block is empty.
    NoStatusLine,
    /// The status line has no readable status code.
    BadStatusCode,
    /// The body is not UTF-8.
    BadBodyEncoding,
    /// The body is not a JSON array.
    NotAnArray,
    /// A status other than 200 or 304.
    UnexpectedStatus,
}

impl SyncError {
    /// A short description for the log.
    pub fn message(&self) -> (r: &'static str) {
        match self {
            SyncError::Malformed => "malformed response",
            SyncError::BadHeaderEncoding => "bad header encoding",
            SyncError::NoStatusLine => "no status line",
            SyncError::BadStatusCode => "bad status code",
            SyncError::BadBodyEncoding => "bad body encoding",
            SyncError::NotAnArray => "not a JSON array",
            SyncError::UnexpectedStatus => "unexpected status",
        }
    }
}

/// An accepted server response.
pub enum SyncResponse {
    /// 304: the cached list is still current.
    NotModified,
    /// 200: the new credential list.
    Fobs(FobList),
}

/// The error a response gives, or `None` when it is accepted.
pub open spec fn conway_error(b: Seq<u8>) -> Option<SyncError> {
    match header_end_from(b, 0) {
        None => Some(SyncError::Malformed),
        Some(he) => if !valid_utf8(b.take(he)) {
            Some(SyncError::BadHeaderEncoding)
        } else if he == 0 {
            Some(SyncError::NoStatusLine)
        } else {
            match status_of(b, he) {
                None => Some(SyncError::BadStatusCode),
                Some(st) => if st == 304 {
                    None
                } else if st == 200 {
                    let body = b.subrange(he + 4, b.len() as int);
                    if !valid_utf8(body) {
                        Some(SyncError::BadBodyEncoding)
                    } else if fob_list_spec(body) is None {
                        Some(SyncError::NotAnArray)
                    } else {
                        None
                    }
                } else {
                    Some(SyncError::UnexpectedStatus)
                },
            }
        },
    }
}

/// The response's headers are readable and its status is 200.
pub open spec fn readable_200(b: Seq<u8>) -> bool {
    match header_end_from(b, 0) {
        None => false,
        Some(he) => valid_utf8(b.take(he)) && he > 0 && status_of(b, he) == Some(200int),
    }
}

/// The token after a 200's headers were read: the last `ETag:` value when
/// there is one (emptied when it is longer than `MAX_ETAG` bytes), else unchanged.
pub open spec fn etag_after(old_etag: Seq<u8>, b: Seq<u8>, he: int) -> Seq<u8> {
    match last_etag_spec(b, 0, he) {
        None => old_etag,
        Some(v) => {
            let t = etag_text(b.subrange(v.0, v.1));
            if t.len() <= MAX_ETAG {
                t
            } else {
                Seq::empty()
            }
        },
    }
}

fn copy_range(b: &[u8], s: usize, e: usize) -> (r: Vec<u8>)
    requires
        s <= e <= b@.len(),
    ensures
        r@ == b@.subrange(s as int, e as int),
{
    let mut v: Vec<u8> = Vec::new();
    let mut i = s;
    while i < e
        invariant
            s <= i <= e <= b@.len(),
            v@ == b@.subrange(s as int, i as int),
        decreases e - i,
    {
        v.push(b[i]);
        i = i + 1;
    }
    v
}

fn apply_etag_lines(b: &[u8], he: usize, etag: &mut Etag)
    requires
        he <= b@.len(),
    ensures
        final(etag)@ == etag_after(old(etag)@, b@, he as int),
{
    let key = key_etag();
    let mut found: Option<(usize, usize)> = None;
    let mut pos: usize = 0;
    while pos < he
        invariant
            pos <= he <= b@.len(),
            key@ == etag_key(),
            found matches Some(x) ==> x.0 <= x.1 <= b@.len(),
            last_etag_spec(b@, 0, he as int) == (if last_etag_spec(b@, pos as int, he as int) is Some {
                last_etag_spec(b@, pos as int, he as int)
            } else {
                match found {
                    Some(x) => Some((x.0 as int, x.1 as int)),
                    None => None,
                }
            }),
        decreases he - pos,
    {
        let (ce, nx) = line_bounds(b, pos, he);
        if ce - pos >= 5 && eq_ignore_case_at(b, pos, pos + 5, key.as_slice()) {
            let (vs, ve) = trim(b, pos + 5, ce);
            found = Some((vs, ve));
        }
        pos = nx;
    }
    match found {
        None => {},
        Some((vs, ve)) => {
            let raw = copy_range(b, vs, ve);
            etag.clear();
            match utf8_text(raw.as_slice()) {
                Some(text) => {
                    etag.push_str(text);
                    assert(Seq::<u8>::empty() + text.spec_bytes() =~= text.spec_bytes());
                },
                None => {},
            }
        },
    }
}

/// Reads the server's reply to a sync request. 304 keeps the cached list;
/// an accepted 200 carries a new list, and its `ETag` header replaces
/// `etag`. Any other reply, a 200 whose body is rejected included, is an
/// error and leaves `etag` as it was, so the next request asks again.
pub fn parse_conway_response(data: &[u8], etag: &mut Etag) -> (r: Result<SyncResponse, SyncError>)
    ensures
        conway_error(data@) matches Some(err) ==> r == Err::<SyncResponse, SyncError>(err),
        conway_error(data@) is None ==> r is Ok,
        r matches Ok(SyncResponse::Fobs(l)) ==> readable_200(data@) && fob_list_spec(
            data@.subrange(header_end_from(data@, 0).unwrap() + 4, data@.len() as int),
        ) == Some(l@) && final(etag)@ == etag_after(
            old(etag)@,
            data@,
            header_end_from(data@, 0).unwrap(),
        ),
        conway_error(data@) is None && readable_200(data@) ==> r matches Ok(SyncResponse::Fobs(_)),
        r matches Ok(SyncResponse::NotModified) ==> !readable_200(data@),
        !(r matches Ok(SyncResponse::Fobs(_))) ==> final(etag)@ == old(etag)@,
{
    let he = match find_header_end(data) {
        Some(i) => i,
        None => {
            return Err(SyncError::Malformed);
        },
    };
    let header = copy_range(data, 0, he);
    assert(data@.take(he as int) == data@.subrange(0, he as int));
    let header_ok = utf8_text(header.as_slice()).is_some();
    if !header_ok {
        assert(!valid_utf8(data@.take(he as int)));
        assert(conway_error(data@) == Some(SyncError::BadHeaderEncoding));
        return Err(SyncError::BadHeaderEncoding);
    }
    if he == 0 {
        return Err(SyncError::NoStatusLine);
    }
    let status = match status_in(data, he) {
        Some(s) => s,
        None => {
            return Err(SyncError::BadStatusCode);
        },
    };
    if status == 304 {
        return Ok(SyncResponse::NotModified);
    }
    if status != 200 {
        return Err(SyncError::UnexpectedStatus);
    }
    let n = data.len();
    assert(he + 4 <= n);
    let body = copy_range(data, he + 4, n);
    let text = match utf8_text(body.as_slice()) {
        Some(t) => t,
        None => {
            return Err(SyncError::BadBodyEncoding);
        },
    };
    match parse_fob_list(text) {
        Ok(l) => {
            apply_etag_lines(data, he, etag);
            Ok(SyncResponse::Fobs(l))
        },
        Err(_) => Err(SyncError::NotAnArray),
    }
}

} // verus!

verus! {

/// What the administrative page serves for a request.
#[derive(Debug, Clone, Copy, PartialEq, Eq, Structural)]
pub enum AdminRoute {
    /// `POST /unlock`: pulse the door.
    Unlock,
    /// `GET /`: the status page.
    Index,
    /// Anything else: 404.
    NotFound,
}

/// The first and second whitespace-separated words of the first line.
pub open spec fn request_words(b: Seq<u8>) -> (Seq<u8>, Seq<u8>) {
    let ce = line_break(b, 0, b.len() as int);
    let s1 = trim_start(b, 0, ce);
    let e1 = ws_from(b, s1, ce);
    let s2 = trim_start(b, e1, ce);
    let e2 = ws_from(b, s2, ce);
    (b.subrange(s1, e1), b.subrange(s2, e2))
}

pub open spec fn route_spec(b: Seq<u8>) -> AdminRoute {
    let (method, path) = request_words(b);
    if method == seq![80u8, 79, 83, 84] && path == seq![47u8, 117, 110, 108, 111, 99, 107] {
        AdminRoute::Unlock
    } else if method == seq![71u8, 69, 84] && (path == seq![47u8] || path.len() == 0) {
        AdminRoute::Index
    } else {
        AdminRoute::NotFound
    }
}

/// Routes an administrative request by its method and path; `None` when the
/// request is not UTF-8 (it gets no reply).
pub fn route_request(request: &[u8]) -> (r: Option<AdminRoute>)
    ensures
        !valid_utf8(request@) ==> r is None,
        valid_utf8(request@) ==> r == Some(route_spec(request@)),
{
    if utf8_text(request).is_none() {
        return None;
    }
    let b = request;
    let ce = find_byte(b, 0, b.len(), 10);
    let (s1, _) = trim(b, 0, ce);
    let e1 = ws_from_exec(b, s1, ce);
    let (s2, _) = trim(b, e1, ce);
    let e2 = ws_from_exec(b, s2, ce);
    let post: [u8; 4] = [80, 79, 83, 84];
    let unlock: [u8; 7] = [47, 117, 110, 108, 111, 99, 107];
    let get: [u8; 3] = [71, 69, 84];
    let root: [u8; 1] = [47];
    assert(post@ =~= seq![80u8, 79, 83, 84]);
    assert(unlock@ =~= seq![47u8, 117, 110, 108, 111, 99, 107]);
    assert(get@ =~= seq![71u8, 69, 84]);
    assert(root@ =~= seq![47u8]);
    if eq_bytes_at(b, s1, e1, post.as_slice()) && eq_bytes_at(b, s2, e2, unlock.as_slice()) {
        Some(AdminRoute::Unlock)
    } else if eq_bytes_at(b, s1, e1, get.as_slice()) && (eq_bytes_at(b, s2, e2, root.as_slice())
        || e2 == s2) {
        Some(AdminRoute::Index)
    } else {
        Some(AdminRoute::NotFound)
    }
}

} // verus!

verus! {

/// Decimal digits of `n`, most significant first.
pub open spec fn decimal(n: nat) -> Seq<u8>
    decreases n,
{
    if n < 10 {
        seq![(48 + n) as u8]
    } else {
        decimal(n / 10) + seq![(48 + n % 10) as u8]
    }
}

/// `{"fob":N,"allowed":B}`
pub open spec fn event_json(e: AccessEvent) -> Seq<u8> {
    let open_fob = seq![123u8, 34, 102, 111, 98, 34, 58];
    let allowed_key = seq![44u8, 34, 97, 108, 108, 111, 119, 101, 100, 34, 58];
    let value = if e.allowed {
        seq![116u8, 114, 117, 101]
    } else {
        seq![102u8, 97, 108, 115, 101]
    };
    open_fob + decimal(e.fob as nat) + allowed_key + value + seq![125u8]
}

/// The events as comma-separated JSON objects.
pub open spec fn events_items(es: Seq<AccessEvent>) -> Seq<u8>
    decreases es.len(),
{
    if es.len() == 0 {
        Seq::empty()
    } else if es.len() == 1 {
        event_json(es[0])
    } else {
        events_items(es.drop_last()) + seq![44u8] + event_json(es.last())
    }
}

/// The sync request body: a JSON array of the events.
pub open spec fn events_body_spec(es: Seq<AccessEvent>) -> Seq<u8> {
    seq![91u8] + events_items(es) + seq![93u8]
}

fn push_bytes(out: &mut Vec<u8>, lit: &[u8])
    ensures
        final(out)@ == old(out)@ + lit@,
{
    let mut i: usize = 0;
    while i < lit.len()
        invariant
            i <= lit@.len(),
            out@ == old(out)@ + lit@.take(i as int),
        decreases lit@.len() - i,
    {
        out.push(lit[i]);
        assert(lit@.take(i + 1) == lit@.take(i as int).push(lit@[i as int]));
        i = i + 1;
    }
    assert(lit@.take(lit@.len() as int) == lit@);
}

fn push_decimal(out: &mut Vec<u8>, n: u64)
    ensures
        final(out)@ == old(out)@ + decimal(n as nat),
    decreases n,
{
    if n < 10 {
        out.push(48 + n as u8);
        assert(out@ =~= old(out)@ + decimal(n as nat));
    } else {
        push_decimal(out, n / 10);
        out.push(48 + (n % 10) as u8);
        assert(out@ =~= old(out)@ + decimal(n as nat));
    }
}

fn push_event_json(out: &mut Vec<u8>, e: AccessEvent)
    ensures
        final(out)@ == old(out)@ + event_json(e),
{
    let open_fob: [u8; 7] = [123, 34, 102, 111, 98, 34, 58];
    let allowed_key: [u8; 11] = [44, 34, 97, 108, 108, 111, 119, 101, 100, 34, 58];
    let yes: [u8; 4] = [116, 114, 117, 101];
    let no: [u8; 5] = [102, 97, 108, 115, 101];
    assert(open_fob@ =~= seq![123u8, 34, 102, 111, 98, 34, 58]);
    assert(allowed_key@ =~= seq![44u8, 34, 97, 108, 108, 111, 119, 101, 100, 34, 58]);
    assert(yes@ =~= seq![116u8, 114, 117, 101]);
    assert(no@ =~= seq![102u8, 97, 108, 115, 101]);
    push_bytes(out, open_fob.as_slice());
    push_decimal(out, e.fob as u64);
    push_bytes(out, allowed_key.as_slice());
    if e.allowed {
        push_bytes(out, yes.as_slice());
    } else {
        push_bytes(out, no.as_slice());
    }
    out.push(125);
    assert(out@ =~= old(out)@ + event_json(e));
}

/// The sync request body for `events`: `[{"fob":N,"allowed":B},...]`.
pub fn events_body(events: &[AccessEvent]) -> (r: Vec<u8>)
    ensures
        r@ == events_body_spec(events@),
{
    let mut out: Vec<u8> = Vec::new();
    out.push(91);
    let mut i: usize = 0;
    while i < events.len()
        invariant
            i <= events@.len(),
            out@ == seq![91u8] + events_items(events@.take(i as int)),
        decreases events@.len() - i,
    {
        let ghost before = out@;
        if i > 0 {
            out.push(44);
        }
        push_event_json(&mut out, events[i]);
        proof {
            let t = events@.take(i + 1);
            assert(t.drop_last() =~= events@.take(i as int));
            assert(t.last() == events@[i as int]);
            if i == 0 {
                assert(t.len() == 1 && t[0] == events@[0]);
                assert(events@.take(0) =~= Seq::<AccessEvent>::empty());
            }
            assert(out@ =~= seq![91u8] + events_items(t));
        }
        i = i + 1;
    }
    out.push(93);
    assert(events@.take(events@.len() as int) =~= events@);
    assert(out@ =~= events_body_spec(events@));
    out
}

} // verus!

verus! {

/// Applies a reply that `parse_conway_response` read. An accepted list
/// replaces the shared cache and the stored credentials and token (marking
/// them for writing to flash); an accepted 304 changes nothing. In both cases
/// the server acknowledged the events sent with the request, so the
/// `event_count` events peeked at tail `event_tail` are committed and `true`
/// is returned. On an error nothing changes and the events stay for the next
/// attempt: a failed sync never discards captured events.
pub fn apply_sync_response(
    shared: &Shared,
    storage: &mut Storage,
    resp: &Result<SyncResponse, SyncError>,
    etag: &Etag,
    event_count: usize,
    event_tail: u16,
) -> (committed: bool)
    ensures
        resp matches Ok(SyncResponse::Fobs(l)) ==> {
            &&& committed
            &&& final(storage).cached_fobs() == l@
            &&& final(storage).cached_etag() == etag@
            &&& final(storage).is_dirty()
            &&& final(storage).seq() == old(storage).seq()
            &&& final(storage).advanced_spec() == old(storage).advanced_spec()
        },
        resp matches Ok(SyncResponse::NotModified) ==> committed && *final(storage) == *old(
            storage,
        ),
        resp is Err ==> !committed && *final(storage) == *old(storage),
{
    match resp {
        Ok(SyncResponse::Fobs(list)) => {
            let fobs = list.as_slice();
            shared.update_fobs(fobs);
            storage.save_fobs(fobs);
            assert(fobs@.take(min_len(fobs@.len(), MAX_FOBS as nat) as int) =~= fobs@);
            storage.save_etag(etag.as_str());
            shared.commit_events(event_count, event_tail);
            true
        },
        Ok(SyncResponse::NotModified) => {
            shared.commit_events(event_count, event_tail);
            true
        },
        Err(_) => false,
    }
}

} // verus!

verus! {

/// The sync request: `POST /api/fobs` to `host` with the JSON `body`, its
/// length, and the last freshness token in `If-None-Match`.
pub open spec fn request_bytes(host: Seq<u8>, etag: Seq<u8>, body: Seq<u8>) -> Seq<u8> {
    "POST /api/fobs HTTP/1.1\r\nHost: ".spec_bytes() + host
        + "\r\nContent-Type: application/json\r\nContent-Length: ".spec_bytes() + decimal(
        body.len(),
    ) + "\r\nIf-None-Match: ".spec_bytes() + etag + "\r\nConnection: close\r\n\r\n".spec_bytes()
        + body
}

/// Builds the sync request for `host`, the last token and the events body.
pub fn build_request(host: &str, etag: &Etag, body: &[u8]) -> (r: Vec<u8>)
    ensures
        r@ == request_bytes(host.spec_bytes(), etag@, body@),
{
    let mut out: Vec<u8> = Vec::new();
    push_bytes(&mut out, "POST /api/fobs HTTP/1.1\r\nHost: ".as_bytes());
    push_bytes(&mut out, host.as_bytes());
    push_bytes(&mut out, "\r\nContent-Type: application/json\r\nContent-Length: ".as_bytes());
    push_decimal(&mut out, body.len() as u64);
    push_bytes(&mut out, "\r\nIf-None-Match: ".as_bytes());
    push_bytes(&mut out, etag.as_str().as_bytes());
    push_bytes(&mut out, "\r\nConnection: close\r\n\r\n".as_bytes());
    push_bytes(&mut out, body);
    assert(out@ =~= request_bytes(host.spec_bytes(), etag@, body@));
    out
}

} // verus!
