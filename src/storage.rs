//! Crash-safe persistence of the credential list and freshness token in two
//! alternating flash slots, each record guarded by a magic number and a CRC-32.
//!
//! Record layout, all integers little-endian:
//! `[magic][sequence][crc][etag_len][etag bytes][fob_count][fob_count x fob]`,
//! the CRC covering everything from `etag_len` on.
use vstd::prelude::*;
use vstd::string::StringSliceAdditionalSpecFns;
use vstd::utf8::valid_utf8;

use crate::fob_list::{Etag, FobList, MAX_ETAG, min_len};
use crate::shared::SafeWait;
use crate::text::utf8_text;
use crate::MAX_FOBS;

verus! {

/// Marks a written record ("CONW").
pub const STORAGE_MAGIC: u32 = 0x434F_4E57;

/// Flash offset of slot A.
pub const STORAGE_SLOT_A: u32 = 0x3D_0000;

/// Flash offset of slot B.
pub const STORAGE_SLOT_B: u32 = 0x3D_8000;

/// Size of each slot.
pub const SLOT_SIZE: usize = 0x8000;

/// How long the writer waits for the real-time path to reach a safe point.
pub const FLASH_HANDSHAKE_TIMEOUT_MS: u64 = 500;

/// One step of the reflected CRC-32 (polynomial 0xEDB88320) on one bit.
pub open spec fn crc_step(c: u32) -> u32 {
    if c & 1 != 0 {
        (c >> 1) ^ 0xEDB8_8320
    } else {
        c >> 1
    }
}

/// `n` steps of the CRC register.
pub open spec fn crc_steps(c: u32, n: nat) -> u32
    decreases n,
{
    if n == 0 {
        c
    } else {
        crc_step(crc_steps(c, (n - 1) as nat))
    }
}

/// The CRC register after feeding `data` into register value `c`.
pub open spec fn crc_update(c: u32, data: Seq<u8>) -> u32
    decreases data.len(),
{
    if data.len() == 0 {
        c
    } else {
        crc_steps(crc_update(c, data.drop_last()) ^ (data.last() as u32), 8)
    }
}

/// Standard CRC-32: initial value and final result complemented.
pub open spec fn crc32_of(data: Seq<u8>) -> u32 {
    !crc_update(0xFFFF_FFFF, data)
}

fn crc32_range(data: &[u8], start: usize, end: usize) -> (r: u32)
    requires
        start <= end <= data@.len(),
    ensures
        r == crc32_of(data@.subrange(start as int, end as int)),
{
    let mut crc: u32 = 0xFFFF_FFFF;
    let mut i: usize = start;
    while i < end
        invariant
            start <= i <= end <= data@.len(),
            crc == crc_update(0xFFFF_FFFF, data@.subrange(start as int, i as int)),
        decreases end - i,
    {
        let c0 = crc ^ (data[i] as u32);
        crc = c0;
        let mut j: u32 = 0;
        while j < 8
            invariant
                j <= 8,
                crc == crc_steps(c0, j as nat),
            decreases 8 - j,
        {
            crc = if crc & 1 != 0 {
                (crc >> 1) ^ 0xEDB8_8320
            } else {
                crc >> 1
            };
            j = j + 1;
        }
        assert(data@.subrange(start as int, i + 1).drop_last() == data@.subrange(
            start as int,
            i as int,
        ));
        i = i + 1;
    }
    !crc
}

/// CRC-32 of `data` (reflected polynomial 0xEDB88320, complemented initial
/// value and result), as common general-purpose implementations compute it.
pub fn crc32(data: &[u8]) -> (r: u32)
    ensures
        r == crc32_of(data@),
{
    assert(data@.subrange(0, data@.len() as int) == data@);
    crc32_range(data, 0, data.len())
}

/// The four little-endian bytes of `x`.
pub open spec fn le32(x: u32) -> Seq<u8> {
    seq![(x & 0xFF) as u8, ((x >> 8) & 0xFF) as u8, ((x >> 16) & 0xFF) as u8, ((x >> 24) & 0xFF) as u8]
}

/// The little-endian integer at `b[i..i + 4]`.
pub open spec fn read_le32(b: Seq<u8>, i: int) -> u32 {
    (b[i] as u32) | ((b[i + 1] as u32) << 8) | ((b[i + 2] as u32) << 16) | ((b[i + 3] as u32) << 24)
}

/// The bytes of a list of credentials, four little-endian bytes each.
pub open spec fn fobs_bytes(fobs: Seq<u32>) -> Seq<u8>
    decreases fobs.len(),
{
    if fobs.len() == 0 {
        Seq::empty()
    } else {
        fobs_bytes(fobs.drop_last()) + le32(fobs.last())
    }
}

/// The part of a record the CRC covers.
pub open spec fn record_body(etag: Seq<u8>, fobs: Seq<u32>) -> Seq<u8> {
    le32(etag.len() as u32) + etag + le32(fobs.len() as u32) + fobs_bytes(fobs)
}

/// A whole record.
pub open spec fn record_bytes(sequence: u32, etag: Seq<u8>, fobs: Seq<u32>) -> Seq<u8> {
    le32(STORAGE_MAGIC) + le32(sequence) + le32(crc32_of(record_body(etag, fobs))) + record_body(
        etag,
        fobs,
    )
}

/// What a slot holds: its sequence number, token bytes and credentials, when
/// magic number, bounds and CRC all check out.
pub open spec fn parse_record(b: Seq<u8>) -> Option<(u32, Seq<u8>, Seq<u32>)> {
    if b.len() < 16 || read_le32(b, 0) != STORAGE_MAGIC {
        None
    } else {
        let elen = read_le32(b, 12) as int;
        let fc = 16 + elen;
        if elen > MAX_ETAG || fc + 4 > b.len() {
            None
        } else {
            let count = read_le32(b, fc) as int;
            let end = fc + 4 + 4 * count;
            if count > MAX_FOBS || end > b.len() {
                None
            } else if crc32_of(b.subrange(12, end)) != read_le32(b, 8) {
                None
            } else {
                Some(
                    (
                        read_le32(b, 4),
                        b.subrange(16, fc),
                        Seq::new(count as nat, |i: int| read_le32(b, fc + 4 + 4 * i)),
                    ),
                )
            }
        }
    }
}

/// The token kept from stored bytes: the bytes when they are UTF-8, else empty.
pub open spec fn etag_text(b: Seq<u8>) -> Seq<u8> {
    if valid_utf8(b) {
        b
    } else {
        Seq::empty()
    }
}

/// The sequence number in a slot's header, when the header carries the magic number.
pub open spec fn header_seq(b: Seq<u8>) -> Option<u32> {
    if b.len() < 8 || read_le32(b, 0) != STORAGE_MAGIC {
        None
    } else {
        Some(read_le32(b, 4))
    }
}

/// Of two decoded slots, the one with the higher sequence number (A on a tie).
pub open spec fn newer_slot(
    a: Option<(u32, Seq<u8>, Seq<u32>)>,
    b: Option<(u32, Seq<u8>, Seq<u32>)>,
) -> Option<(u32, Seq<u8>, Seq<u32>)> {
    match (a, b) {
        (Some(x), Some(y)) => if y.0 > x.0 {
            b
        } else {
            a
        },
        (Some(_), None) => a,
        (None, Some(_)) => b,
        (None, None) => None,
    }
}

/// What loading two slot images yields.
pub open spec fn load_spec(a: Seq<u8>, b: Seq<u8>) -> Option<(u32, Seq<u8>, Seq<u32>)> {
    newer_slot(parse_record(a), parse_record(b))
}

/// One of the two flash slots.
#[derive(Debug, Clone, Copy, PartialEq, Eq, Structural)]
pub enum Slot {
    A,
    B,
}

/// The sequence number of a slot's record, when the record is valid.
pub open spec fn valid_seq(b: Seq<u8>) -> Option<u32> {
    match parse_record(b) {
        Some(x) => Some(x.0),
        None => None,
    }
}

/// The slot a save writes, given the two slot images: the one whose valid
/// record is older, or the one without a valid record, so that the newest
/// valid record always survives the write.
pub open spec fn save_target(a: Seq<u8>, b: Seq<u8>) -> Slot {
    target_slot_spec(valid_seq(a), valid_seq(b))
}

/// The slot a save writes, given the valid sequence numbers of the slots:
/// the one with the lower (older) sequence, B on a tie (loading then takes
/// A), A when neither is valid, and the invalid one otherwise.
pub open spec fn target_slot_spec(a: Option<u32>, b: Option<u32>) -> Slot {
    match (a, b) {
        (Some(x), Some(y)) => if y <= x {
            Slot::B
        } else {
            Slot::A
        },
        (None, Some(_)) => Slot::A,
        (Some(_), None) => Slot::B,
        (None, None) => Slot::A,
    }
}

impl Slot {
    /// The slot's flash offset.
    pub fn offset(&self) -> (r: u32)
        ensures
            r == (if *self == Slot::A {
                STORAGE_SLOT_A
            } else {
                STORAGE_SLOT_B
            }),
    {
        match self {
            Slot::A => STORAGE_SLOT_A,
            Slot::B => STORAGE_SLOT_B,
        }
    }
}

fn get_le32(b: &[u8], i: usize) -> (r: u32)
    requires
        i + 4 <= b@.len(),
    ensures
        r == read_le32(b@, i as int),
{
    (b[i] as u32) | ((b[i + 1] as u32) << 8) | ((b[i + 2] as u32) << 16) | ((b[i + 3] as u32) << 24)
}

fn put_le32(v: &mut Vec<u8>, x: u32)
    ensures
        final(v)@ == old(v)@ + le32(x),
{
    v.push((x & 0xFF) as u8);
    v.push(((x >> 8) & 0xFF) as u8);
    v.push(((x >> 16) & 0xFF) as u8);
    v.push(((x >> 24) & 0xFF) as u8);
    assert(v@ =~= old(v)@ + le32(x));
}

/// A record read back from a slot.
pub struct SlotRecord {
    pub sequence: u32,
    pub etag: Etag,
    pub fobs: FobList,
}

/// The record a slot holds, as `read_slot` returns it.
pub open spec fn slot_matches(r: Option<SlotRecord>, p: Option<(u32, Seq<u8>, Seq<u32>)>) -> bool {
    match p {
        None => r is None,
        Some(x) => r matches Some(rec) && rec.sequence == x.0 && rec.etag@ == etag_text(x.1)
            && rec.fobs@ == x.2,
    }
}

/// Validates and decodes one slot image. A token that is not UTF-8 is kept empty.
pub fn read_slot(buf: &[u8]) -> (r: Option<SlotRecord>)
    ensures
        slot_matches(r, parse_record(buf@)),
{
    if buf.len() < 16 {
        return None;
    }
    if get_le32(buf, 0) != STORAGE_MAGIC {
        return None;
    }
    let sequence = get_le32(buf, 4);
    let stored_crc = get_le32(buf, 8);
    let etag_len = get_le32(buf, 12) as usize;
    if etag_len > MAX_ETAG {
        return None;
    }
    let etag_end: usize = 16 + etag_len;
    if etag_end + 4 > buf.len() {
        return None;
    }
    let fob_count = get_le32(buf, etag_end) as usize;
    if fob_count > MAX_FOBS {
        return None;
    }
    let fobs_start = etag_end + 4;
    let fobs_end = fobs_start + fob_count * 4;
    if fobs_end > buf.len() {
        return None;
    }
    if crc32_range(buf, 12, fobs_end) != stored_crc {
        return None;
    }
    let mut etag_raw: Vec<u8> = Vec::new();
    let mut k: usize = 16;
    while k < etag_end
        invariant
            16 <= k <= etag_end <= buf@.len(),
            etag_raw@ == buf@.subrange(16, k as int),
        decreases etag_end - k,
    {
        etag_raw.push(buf[k]);
        k = k + 1;
    }
    let mut etag = Etag::new();
    match utf8_text(etag_raw.as_slice()) {
        Some(text) => {
            etag.push_str(text);
            assert(Seq::<u8>::empty() + text.spec_bytes() =~= text.spec_bytes());
        },
        None => {},
    }
    let mut fobs = FobList::new();
    let mut i: usize = 0;
    while i < fob_count
        invariant
            fob_count <= MAX_FOBS,
            fobs_start + 4 * fob_count == fobs_end,
            fobs_end <= buf@.len(),
            i <= fob_count,
            fobs@ == Seq::new(i as nat, |j: int| read_le32(buf@, fobs_start + 4 * j)),
        decreases fob_count - i,
    {
        let fob = get_le32(buf, fobs_start + i * 4);
        fobs.push(fob);
        assert(fobs@ =~= Seq::new((i + 1) as nat, |j: int| read_le32(buf@, fobs_start + 4 * j)));
        i = i + 1;
    }
    Some(SlotRecord { sequence, etag, fobs })
}

/// The sequence number in a slot header (its first eight bytes), when the
/// header carries the magic number.
pub fn read_slot_sequence(header: &[u8]) -> (r: Option<u32>)
    ensures
        r == header_seq(header@),
{
    if header.len() < 8 {
        return None;
    }
    if get_le32(header, 0) != STORAGE_MAGIC {
        return None;
    }
    Some(get_le32(header, 4))
}

/// Chooses the slot a save writes.
pub fn target_slot(a: Option<u32>, b: Option<u32>) -> (r: Slot)
    ensures
        r == target_slot_spec(a, b),
{
    match (a, b) {
        (Some(x), Some(y)) => if y <= x {
            Slot::B
        } else {
            Slot::A
        },
        (None, Some(_)) => Slot::A,
        (Some(_), None) => Slot::B,
        (None, None) => Slot::A,
    }
}

/// Serializes a record.
pub fn encode_record(sequence: u32, etag: &str, fobs: &[u32]) -> (r: Vec<u8>)
    requires
        etag.spec_bytes().len() <= MAX_ETAG,
        fobs@.len() <= MAX_FOBS,
    ensures
        r@ == record_bytes(sequence, etag.spec_bytes(), fobs@),
{
    let eb = etag.as_bytes();
    let mut body: Vec<u8> = Vec::new();
    put_le32(&mut body, eb.len() as u32);
    let mut k: usize = 0;
    while k < eb.len()
        invariant
            k <= eb@.len(),
            body@ == le32(eb@.len() as u32) + eb@.take(k as int),
        decreases eb@.len() - k,
    {
        body.push(eb[k]);
        assert(eb@.take(k + 1) == eb@.take(k as int).push(eb@[k as int]));
        k = k + 1;
    }
    assert(eb@.take(eb@.len() as int) == eb@);
    put_le32(&mut body, fobs.len() as u32);
    let ghost prefix = body@;
    let mut i: usize = 0;
    while i < fobs.len()
        invariant
            i <= fobs@.len(),
            body@ == prefix + fobs_bytes(fobs@.take(i as int)),
        decreases fobs@.len() - i,
    {
        put_le32(&mut body, fobs[i]);
        assert(fobs@.take(i + 1).drop_last() == fobs@.take(i as int));
        i = i + 1;
    }
    assert(fobs@.take(fobs@.len() as int) == fobs@);
    assert(body@ =~= record_body(eb@, fobs@));
    let crc = crc32(body.as_slice());
    let mut out: Vec<u8> = Vec::new();
    put_le32(&mut out, STORAGE_MAGIC);
    put_le32(&mut out, sequence);
    put_le32(&mut out, crc);
    let ghost head = out@;
    let mut j: usize = 0;
    while j < body.len()
        invariant
            j <= body@.len(),
            out@ == head + body@.take(j as int),
        decreases body@.len() - j,
    {
        out.push(body[j]);
        assert(body@.take(j + 1) == body@.take(j as int).push(body@[j as int]));
        j = j + 1;
    }
    assert(body@.take(body@.len() as int) == body@);
    assert(out@ =~= record_bytes(sequence, eb@, fobs@));
    out
}

} // verus!

verus! {

/// A record to write and the slot it goes to.
pub struct FlashWrite {
    pub slot: Slot,
    pub bytes: Vec<u8>,
}

/// In-memory copy of the persisted credential list and token, with the
/// sequence number of the newest record and whether a save is pending.
pub struct Storage {
    fobs: FobList,
    etag: Etag,
    dirty: bool,
    sequence: u32,
    advanced: bool,
}

impl Storage {
    /// The cached credentials.
    pub closed spec fn cached_fobs(&self) -> Seq<u32> {
        self.fobs@
    }

    /// The cached token bytes.
    pub closed spec fn cached_etag(&self) -> Seq<u8> {
        self.etag@
    }

    /// A change not yet written.
    pub closed spec fn is_dirty(&self) -> bool {
        self.dirty
    }

    /// Sequence number of the newest record.
    pub closed spec fn seq(&self) -> u32 {
        self.sequence
    }

    /// The last `flush` advanced the sequence number and its write is not
    /// finished yet.
    pub closed spec fn advanced_spec(&self) -> bool {
        self.advanced
    }

    /// The cache loaded from the two slot images: the valid record with the
    /// higher sequence number, or empty when neither is valid.
    pub fn new(slot_a: &[u8], slot_b: &[u8]) -> (r: Storage)
        ensures
            !r.is_dirty(),
            !r.advanced_spec(),
            match load_spec(slot_a@, slot_b@) {
                Some(x) => r.seq() == x.0 && r.cached_etag() == etag_text(x.1) && r.cached_fobs()
                    == x.2,
                None => r.seq() == 0 && r.cached_etag() == Seq::<u8>::empty() && r.cached_fobs()
                    == Seq::<u32>::empty(),
            },
    {
        let a = read_slot(slot_a);
        let b = read_slot(slot_b);
        let chosen = match (a, b) {
            (Some(ra), Some(rb)) => if rb.sequence > ra.sequence {
                Some(rb)
            } else {
                Some(ra)
            },
            (Some(ra), None) => Some(ra),
            (None, Some(rb)) => Some(rb),
            (None, None) => None,
        };
        match chosen {
            Some(rec) => Storage {
                fobs: rec.fobs,
                etag: rec.etag,
                dirty: false,
                sequence: rec.sequence,
                advanced: false,
            },
            None => Storage {
                fobs: FobList::new(),
                etag: Etag::new(),
                dirty: false,
                sequence: 0,
                advanced: false,
            },
        }
    }

    /// A copy of the cached credentials.
    pub fn load_fobs(&self) -> (r: FobList)
        ensures
            r@ == self.cached_fobs(),
    {
        self.fobs.copy()
    }

    /// A copy of the cached token.
    pub fn load_etag(&self) -> (r: Etag)
        ensures
            r@ == self.cached_etag(),
    {
        self.etag.copy()
    }

    /// Sequence number of the newest record.
    pub fn sequence(&self) -> (r: u32)
        ensures
            r == self.seq(),
    {
        self.sequence
    }

    /// Replaces the cached credentials (the first `MAX_FOBS` of them) and marks
    /// the cache for writing.
    pub fn save_fobs(&mut self, fobs: &[u32])
        ensures
            final(self).cached_fobs() == fobs@.take(min_len(fobs@.len(), MAX_FOBS as nat) as int),
            final(self).cached_etag() == old(self).cached_etag(),
            final(self).seq() == old(self).seq(),
            final(self).advanced_spec() == old(self).advanced_spec(),
            final(self).is_dirty(),
    {
        self.fobs = FobList::from_slice(fobs);
        self.dirty = true;
    }

    /// Replaces the cached token and marks the cache for writing; a token
    /// longer than `MAX_ETAG` bytes does not fit and leaves it empty.
    pub fn save_etag(&mut self, etag: &str) -> (r: bool)
        ensures
            r,
            etag.spec_bytes().len() <= MAX_ETAG ==> final(self).cached_etag() == etag.spec_bytes(),
            etag.spec_bytes().len() > MAX_ETAG ==> final(self).cached_etag() == Seq::<u8>::empty(),
            final(self).cached_fobs() == old(self).cached_fobs(),
            final(self).seq() == old(self).seq(),
            final(self).advanced_spec() == old(self).advanced_spec(),
            final(self).is_dirty(),
    {
        self.etag = Etag::from_str(etag);
        self.dirty = true;
        true
    }

    /// Starts writing a pending change, given the current images of both
    /// slots. Returns `None` when nothing is pending. Otherwise the change is
    /// no longer pending, the sequence number advances by one (saturating),
    /// and the record goes to the slot whose valid record is older, or that
    /// holds no valid record. Call `finish_flush` once the write was attempted.
    pub fn flush(&mut self, slot_a: &[u8], slot_b: &[u8]) -> (r: Option<FlashWrite>)
        ensures
            !old(self).is_dirty() ==> r is None && *final(self) == *old(self),
            old(self).is_dirty() ==> {
                &&& !final(self).is_dirty()
                &&& final(self).cached_fobs() == old(self).cached_fobs()
                &&& final(self).cached_etag() == old(self).cached_etag()
                &&& final(self).seq() == if old(self).seq() == u32::MAX {
                    u32::MAX
                } else {
                    (old(self).seq() + 1) as u32
                }
                &&& final(self).advanced_spec() == (old(self).seq() < u32::MAX)
                &&& r matches Some(w) && w.slot == save_target(slot_a@, slot_b@) && w.bytes@ == record_bytes(
                    final(self).seq(),
                    final(self).cached_etag(),
                    final(self).cached_fobs(),
                )
            },
    {
        if !self.dirty {
            return None;
        }
        self.dirty = false;
        let seq_a = match read_slot(slot_a) {
            Some(rec) => Some(rec.sequence),
            None => None,
        };
        let seq_b = match read_slot(slot_b) {
            Some(rec) => Some(rec.sequence),
            None => None,
        };
        let slot = target_slot(seq_a, seq_b);
        self.advanced = self.sequence < u32::MAX;
        self.sequence = self.sequence.saturating_add(1);
        let bytes = encode_record(self.sequence, self.etag.as_str(), self.fobs.as_slice());
        Some(FlashWrite { slot, bytes })
    }

    /// Ends a write started by `flush`. When it did not happen (the
    /// handshake was refused or timed out, or the flash write failed) the
    /// sequence number goes back if `flush` advanced it, so that the next
    /// attempt writes the same sequence number to the same slot.
    pub fn finish_flush(&mut self, written: bool)
        ensures
            final(self).cached_fobs() == old(self).cached_fobs(),
            final(self).cached_etag() == old(self).cached_etag(),
            final(self).is_dirty() == old(self).is_dirty(),
            !final(self).advanced_spec(),
            written || !old(self).advanced_spec() ==> final(self).seq() == old(self).seq(),
            !written && old(self).advanced_spec() && old(self).seq() > 0 ==> final(self).seq()
                == old(self).seq() - 1,
    {
        if !written && self.advanced && self.sequence > 0 {
            self.sequence = self.sequence - 1;
        }
        self.advanced = false;
    }
}

} // verus!

verus! {

/// A slot image after `bytes` were written at its start.
pub open spec fn written_image(img: Seq<u8>, bytes: Seq<u8>) -> Seq<u8> {
    if img.len() >= bytes.len() {
        bytes + img.skip(bytes.len() as int)
    } else {
        bytes
    }
}

/// Sequence number of what loading the two images yields (0 when nothing).
pub open spec fn loaded_seq(a: Seq<u8>, b: Seq<u8>) -> u32 {
    match load_spec(a, b) {
        Some(x) => x.0,
        None => 0,
    }
}

/// The two slot images after a save of `etag` and `fobs` by a cache loaded
/// from them: the next sequence number, written to the older slot.
pub open spec fn save_images(a: Seq<u8>, b: Seq<u8>, etag: Seq<u8>, fobs: Seq<u32>) -> (
    Seq<u8>,
    Seq<u8>,
) {
    let rec = record_bytes((loaded_seq(a, b) + 1) as u32, etag, fobs);
    if save_target(a, b) == Slot::A {
        (written_image(a, rec), b)
    } else {
        (a, written_image(b, rec))
    }
}

proof fn lemma_le32_round_trip(x: u32)
    ensures
        read_le32(le32(x), 0) == x,
        le32(x).len() == 4,
{
    let b0 = (x & 0xFF) as u8;
    let b1 = ((x >> 8) & 0xFF) as u8;
    let b2 = ((x >> 16) & 0xFF) as u8;
    let b3 = ((x >> 24) & 0xFF) as u8;
    assert((b0 as u32) | ((b1 as u32) << 8) | ((b2 as u32) << 16) | ((b3 as u32) << 24) == x)
        by (bit_vector)
        requires
            b0 == (x & 0xFF) as u8,
            b1 == ((x >> 8) & 0xFF) as u8,
            b2 == ((x >> 16) & 0xFF) as u8,
            b3 == ((x >> 24) & 0xFF) as u8,
    ;
}

proof fn lemma_read_le32_at(b: Seq<u8>, i: int, x: u32)
    requires
        0 <= i,
        i + 4 <= b.len(),
        b.subrange(i, i + 4) == le32(x),
    ensures
        read_le32(b, i) == x,
{
    lemma_le32_round_trip(x);
    assert(b[i] == le32(x)[0]);
    assert(b[i + 1] == le32(x)[1]);
    assert(b[i + 2] == le32(x)[2]);
    assert(b[i + 3] == le32(x)[3]);
}

proof fn lemma_fobs_bytes(f: Seq<u32>)
    ensures
        fobs_bytes(f).len() == 4 * f.len(),
        forall|i: int|
            0 <= i < f.len() ==> #[trigger] fobs_bytes(f).subrange(4 * i, 4 * i + 4) == le32(f[i]),
    decreases f.len(),
{
    if f.len() > 0 {
        let g = f.drop_last();
        lemma_fobs_bytes(g);
        assert forall|i: int| 0 <= i < f.len() implies #[trigger] fobs_bytes(f).subrange(
            4 * i,
            4 * i + 4,
        ) == le32(f[i]) by {
            if i < g.len() {
                assert(fobs_bytes(f).subrange(4 * i, 4 * i + 4) =~= fobs_bytes(g).subrange(
                    4 * i,
                    4 * i + 4,
                ));
            } else {
                assert(fobs_bytes(f).subrange(4 * i, 4 * i + 4) =~= le32(f.last()));
            }
        }
    }
}

/// A written record reads back as what was written, whatever follows it in the slot.
pub proof fn lemma_record_round_trip(sequence: u32, etag: Seq<u8>, fobs: Seq<u32>, rest: Seq<u8>)
    requires
        etag.len() <= MAX_ETAG,
        fobs.len() <= MAX_FOBS,
    ensures
        parse_record(record_bytes(sequence, etag, fobs) + rest) == Some((sequence, etag, fobs)),
        header_seq(record_bytes(sequence, etag, fobs) + rest) == Some(sequence),
{
    let body = record_body(etag, fobs);
    let rec = record_bytes(sequence, etag, fobs);
    let b = rec + rest;
    let el = etag.len() as int;
    let fc = 16 + el;
    let n = fobs.len() as int;
    lemma_fobs_bytes(fobs);
    lemma_le32_round_trip(0);
    assert(b.subrange(0, 4) =~= le32(STORAGE_MAGIC));
    lemma_read_le32_at(b, 0, STORAGE_MAGIC);
    assert(b.subrange(4, 8) =~= le32(sequence));
    lemma_read_le32_at(b, 4, sequence);
    assert(b.subrange(8, 12) =~= le32(crc32_of(body)));
    lemma_read_le32_at(b, 8, crc32_of(body));
    assert(b.subrange(12, 16) =~= le32(etag.len() as u32));
    lemma_read_le32_at(b, 12, etag.len() as u32);
    assert(b.subrange(fc, fc + 4) =~= le32(fobs.len() as u32));
    lemma_read_le32_at(b, fc, fobs.len() as u32);
    assert(rec.len() == fc + 4 + 4 * n);
    assert(b.subrange(12, fc + 4 + 4 * n) =~= body);
    assert(b.subrange(16, fc) =~= etag);
    assert forall|i: int| 0 <= i < n implies read_le32(b, fc + 4 + 4 * i) == fobs[i] by {
        assert(fobs_bytes(fobs).subrange(4 * i, 4 * i + 4) == le32(fobs[i]));
        assert(b.subrange(fc + 4 + 4 * i, fc + 4 + 4 * i + 4) =~= fobs_bytes(fobs).subrange(
            4 * i,
            4 * i + 4,
        ));
        lemma_read_le32_at(b, fc + 4 + 4 * i, fobs[i]);
    }
    assert(Seq::new(n as nat, |i: int| read_le32(b, fc + 4 + 4 * i)) =~= fobs);
}

proof fn lemma_written_record(img: Seq<u8>, sequence: u32, etag: Seq<u8>, fobs: Seq<u32>)
    requires
        etag.len() <= MAX_ETAG,
        fobs.len() <= MAX_FOBS,
    ensures
        parse_record(written_image(img, record_bytes(sequence, etag, fobs))) == Some(
            (sequence, etag, fobs),
        ),
        header_seq(written_image(img, record_bytes(sequence, etag, fobs))) == Some(sequence),
{
    let rec = record_bytes(sequence, etag, fobs);
    if img.len() >= rec.len() {
        lemma_record_round_trip(sequence, etag, fobs, img.skip(rec.len() as int));
    } else {
        lemma_record_round_trip(sequence, etag, fobs, Seq::empty());
        assert(rec + Seq::<u8>::empty() =~= rec);
    }
}

/// Round trip: after a save, loading returns the saved credentials and token
/// under the next sequence number.
pub proof fn lemma_save_then_load(a: Seq<u8>, b: Seq<u8>, etag: Seq<u8>, fobs: Seq<u32>)
    requires
        etag.len() <= MAX_ETAG,
        fobs.len() <= MAX_FOBS,
        loaded_seq(a, b) < u32::MAX,
    ensures
        load_spec(save_images(a, b, etag, fobs).0, save_images(a, b, etag, fobs).1) == Some(
            ((loaded_seq(a, b) + 1) as u32, etag, fobs),
        ),
{
    let s = (loaded_seq(a, b) + 1) as u32;
    if save_target(a, b) == Slot::A {
        lemma_written_record(a, s, etag, fobs);
    } else {
        lemma_written_record(b, s, etag, fobs);
    }
}

/// Round trip through the cache: a `Storage` whose sequence number is the
/// one loaded from slot images `a` and `b` (as `new` leaves it, and as
/// `save_fobs` and `save_etag` keep it) flushes a write to `save_target(a, b)`
/// of `record_bytes` under the next sequence number; once that write lands,
/// loading the images returns exactly the cached credentials and token.
pub proof fn lemma_flush_then_load(a: Seq<u8>, b: Seq<u8>, st: Storage)
    requires
        st.seq() == loaded_seq(a, b),
        st.seq() < u32::MAX,
        st.cached_etag().len() <= MAX_ETAG,
        st.cached_fobs().len() <= MAX_FOBS,
    ensures
        ({
            let s2 = (st.seq() + 1) as u32;
            let bytes = record_bytes(s2, st.cached_etag(), st.cached_fobs());
            let images = if save_target(a, b) == Slot::A {
                (written_image(a, bytes), b)
            } else {
                (a, written_image(b, bytes))
            };
            load_spec(images.0, images.1) == Some((s2, st.cached_etag(), st.cached_fobs()))
        }),
{
    lemma_save_then_load(a, b, st.cached_etag(), st.cached_fobs());
}

/// A save never targets the slot that loading chooses, so a save
/// interrupted so that its target no longer validates leaves loading
/// exactly as before.
pub proof fn lemma_interrupted_save_keeps_last_good(a: Seq<u8>, b: Seq<u8>, broken: Seq<u8>)
    requires
        parse_record(a) is Some || parse_record(b) is Some,
        parse_record(broken) is None,
    ensures
        save_target(a, b) == Slot::A ==> load_spec(broken, b) == load_spec(a, b),
        save_target(a, b) == Slot::B ==> load_spec(a, broken) == load_spec(a, b),
{
}

/// Two consecutive saves write to different slots, each with the previous
/// newest sequence number plus one, and loading afterwards returns the second.
pub proof fn lemma_saves_alternate(
    a: Seq<u8>,
    b: Seq<u8>,
    etag1: Seq<u8>,
    fobs1: Seq<u32>,
    etag2: Seq<u8>,
    fobs2: Seq<u32>,
)
    requires
        etag1.len() <= MAX_ETAG,
        fobs1.len() <= MAX_FOBS,
        etag2.len() <= MAX_ETAG,
        fobs2.len() <= MAX_FOBS,
        loaded_seq(a, b) + 2 <= u32::MAX,
    ensures
        ({
            let (a1, b1) = save_images(a, b, etag1, fobs1);
            let (a2, b2) = save_images(a1, b1, etag2, fobs2);
            &&& save_target(a1, b1) != save_target(a, b)
            &&& loaded_seq(a1, b1) == loaded_seq(a, b) + 1
            &&& loaded_seq(a2, b2) == loaded_seq(a, b) + 2
            &&& load_spec(a2, b2) == Some(((loaded_seq(a, b) + 2) as u32, etag2, fobs2))
        }),
{
    let s = loaded_seq(a, b);
    lemma_save_then_load(a, b, etag1, fobs1);
    let (a1, b1) = save_images(a, b, etag1, fobs1);
    if save_target(a, b) == Slot::A {
        lemma_written_record(a, (s + 1) as u32, etag1, fobs1);
    } else {
        lemma_written_record(b, (s + 1) as u32, etag1, fobs1);
    }
    lemma_save_then_load(a1, b1, etag2, fobs2);
}

} // verus!

verus! {

/// Port used when none is configured.
pub const DEFAULT_PORT: u16 = 8080;

/// The digits of `b`, other bytes skipped, read as a decimal that wraps at 2^16.
pub open spec fn port_digits(b: Seq<u8>) -> u16
    decreases b.len(),
{
    if b.len() == 0 {
        0
    } else {
        let r = port_digits(b.drop_last());
        let c = b.last();
        if 48 <= c && c <= 57 {
            ((r * 10 + (c - 48)) % 65536) as u16
        } else {
            r
        }
    }
}

/// The configured port: `DEFAULT_PORT` when the digits read as 0.
pub open spec fn parse_port_spec(b: Seq<u8>) -> u16 {
    if port_digits(b) == 0 {
        DEFAULT_PORT
    } else {
        port_digits(b)
    }
}

/// Reads a port number: non-digits are skipped, the value wraps at 2^16, and
/// 0 (no digits) gives `DEFAULT_PORT`.
pub fn parse_port(s: &str) -> (r: u16)
    ensures
        r == parse_port_spec(s.spec_bytes()),
{
    let b = s.as_bytes();
    let mut result: u16 = 0;
    let mut i: usize = 0;
    while i < b.len()
        invariant
            i <= b@.len(),
            result == port_digits(b@.take(i as int)),
        decreases b@.len() - i,
    {
        let c = b[i];
        assert(b@.take(i + 1).drop_last() == b@.take(i as int));
        if c >= 48 && c <= 57 {
            result = ((result as u32 * 10 + (c - 48) as u32) % 65536) as u16;
        }
        i = i + 1;
    }
    assert(b@.take(b@.len() as int) == b@);
    if result == 0 {
        DEFAULT_PORT
    } else {
        result
    }
}

/// Server and network configuration.
#[derive(Clone)]
pub struct Config {
    pub ssid: &'static str,
    pub password: &'static str,
    pub conway_host: &'static str,
    pub conway_port: u16,
}

impl Config {
    /// The configuration from the values supplied at build time, with
    /// defaults for those missing: no network name (`unconfigured`), no
    /// password, server `192.168.1.1`, port `DEFAULT_PORT`.
    pub fn get(
        ssid: Option<&'static str>,
        password: Option<&'static str>,
        host: Option<&'static str>,
        port: Option<&str>,
    ) -> (r: Config)
        ensures
            ssid matches Some(v) ==> r.ssid == v,
            ssid is None ==> r.ssid@ == "unconfigured"@,
            password matches Some(v) ==> r.password == v,
            password is None ==> r.password@ == ""@,
            host matches Some(v) ==> r.conway_host == v,
            host is None ==> r.conway_host@ == "192.168.1.1"@,
            port matches Some(p) ==> r.conway_port == parse_port_spec(p.spec_bytes()),
            port is None ==> r.conway_port == DEFAULT_PORT,
    {
        Config {
            ssid: match ssid {
                Some(v) => v,
                None => "unconfigured",
            },
            password: match password {
                Some(v) => v,
                None => "",
            },
            conway_host: match host {
                Some(v) => v,
                None => "192.168.1.1",
            },
            conway_port: match port {
                Some(p) => parse_port(p),
                None => DEFAULT_PORT,
            },
        }
    }
}

} // verus!

verus! {

/// What the last outside step of a save reported.
#[derive(Debug, Clone, Copy, PartialEq, Eq, Structural)]
pub enum SaveEvent {
    /// `flush` produced a record to write.
    Start,
    /// `request_flash_write` answered.
    Requested(bool),
    /// `poll_flash_safe` answered.
    Polled(SafeWait),
    /// The flash write ended, successfully or not.
    Wrote(bool),
}

/// What the flash writer does next in a save.
#[derive(Debug, Clone, Copy, PartialEq, Eq, Structural)]
pub enum SaveAction {
    /// Ask for the write-safety handshake.
    Request,
    /// Check again whether the real-time path is safe.
    Poll,
    /// Write the record to flash.
    Write,
    /// Give up without touching flash: `finish_flush(false)`.
    Abort,
    /// Signal the handshake done, then `finish_flush(written)`.
    Complete(bool),
}

/// The save protocol: flash is written only after the handshake is granted
/// and the real-time path reported its safe point; a refused request, an
/// abandoned handshake or a timeout abort the save without writing.
pub open spec fn save_action_spec(e: SaveEvent) -> SaveAction {
    match e {
        SaveEvent::Start => SaveAction::Request,
        SaveEvent::Requested(granted) => if granted {
            SaveAction::Poll
        } else {
            SaveAction::Abort
        },
        SaveEvent::Polled(w) => match w {
            SafeWait::Proceed => SaveAction::Write,
            SafeWait::Wait => SaveAction::Poll,
            _ => SaveAction::Abort,
        },
        SaveEvent::Wrote(written) => SaveAction::Complete(written),
    }
}

/// The writer's next action in a save.
pub fn save_action(e: SaveEvent) -> (r: SaveAction)
    ensures
        r == save_action_spec(e),
{
    match e {
        SaveEvent::Start => SaveAction::Request,
        SaveEvent::Requested(granted) => if granted {
            SaveAction::Poll
        } else {
            SaveAction::Abort
        },
        SaveEvent::Polled(w) => match w {
            SafeWait::Proceed => SaveAction::Write,
            SafeWait::Wait => SaveAction::Poll,
            _ => SaveAction::Abort,
        },
        SaveEvent::Wrote(written) => SaveAction::Complete(written),
    }
}

} // verus!
