//! Wiegand 26/34-bit frame decoding and the lock-free bit accumulator.
use vstd::prelude::*;

verus! {

/// Bit `i` of `x`, as 0 or 1.
pub open spec fn bit_of(x: u32, i: nat) -> u32 {
    (x >> (i as u32)) & 1
}

/// XOR of the lowest `n` bits of `x`: 1 when an odd number of them are set.
pub open spec fn parity(x: u32, n: nat) -> u32
    decreases n,
{
    if n == 0 {
        0
    } else {
        parity(x, (n - 1) as nat) ^ bit_of(x, (n - 1) as nat)
    }
}

/// Parity of the lowest `n` bits of `x`.
fn parity_bits(x: u32, n: u32) -> (r: u32)
    requires
        n <= 32,
    ensures
        r == parity(x, n as nat),
{
    let mut acc: u32 = 0;
    let mut i: u32 = 0;
    while i < n
        invariant
            i <= n <= 32,
            acc == parity(x, i as nat),
        decreases n - i,
    {
        acc = acc ^ ((x >> i) & 1);
        i = i + 1;
    }
    acc
}

} // verus!

verus! {

#[verifier::external_type_specification]
#[verifier::external_body]
pub struct ExPortableAtomicU64(portable_atomic::AtomicU64);

/// Relies on portable_atomic::AtomicU64::new: creates the atomic holding `v`.
pub assume_specification[ portable_atomic::AtomicU64::new ](v: u64) -> portable_atomic::AtomicU64;

/// Relies on portable_atomic::AtomicU64::load, which panics on a `Release` or
/// `AcqRel` ordering. What it returns depends on the other execution contexts.
pub assume_specification[ portable_atomic::AtomicU64::load ](
    a: &portable_atomic::AtomicU64,
    order: core::sync::atomic::Ordering,
) -> u64
    requires
        order != core::sync::atomic::Ordering::Release,
        order != core::sync::atomic::Ordering::AcqRel,
;

/// Relies on portable_atomic::AtomicU64::store, which panics on an `Acquire` or
/// `AcqRel` ordering.
pub assume_specification[ portable_atomic::AtomicU64::store ](
    a: &portable_atomic::AtomicU64,
    val: u64,
    order: core::sync::atomic::Ordering,
)
    requires
        order != core::sync::atomic::Ordering::Acquire,
        order != core::sync::atomic::Ordering::AcqRel,
;

/// Relies on portable_atomic::AtomicU64::compare_exchange, which panics on a
/// `Release` or `AcqRel` failure ordering; on success the previous value it
/// returns equals `current`.
pub assume_specification[ portable_atomic::AtomicU64::compare_exchange ](
    a: &portable_atomic::AtomicU64,
    current: u64,
    new: u64,
    success: core::sync::atomic::Ordering,
    failure: core::sync::atomic::Ordering,
) -> (r: Result<u64, u64>)
    requires
        failure != core::sync::atomic::Ordering::Release,
        failure != core::sync::atomic::Ordering::AcqRel,
    ensures
        r matches Ok(prev) ==> prev == current,
;

/// Debounce window: a transition closer than this to the previous accepted one is noise.
pub const DEBOUNCE_US: u64 = 200;

/// Quiet time after the last bit that ends a frame.
pub const END_OF_TX_US: u64 = 25_000;

/// Bit position of the count in the packed accumulator.
pub const COUNT_SHIFT: u64 = 56;

/// Mask of the accumulated bits in the packed accumulator.
pub const BITS_MASK: u64 = 0x00FF_FFFF_FFFF_FFFF;

/// Most bits one frame may accumulate.
pub const MAX_FRAME_BITS: u64 = 64;

/// Attempts a compare-and-swap loop makes before it gives up.
pub const CAS_RETRY_LIMIT: u32 = 10_000;

/// A decoded credential.
#[derive(Debug, Clone, Copy, PartialEq, Eq, Structural)]
pub struct WiegandRead {
    pub facility: u32,
    pub card: u32,
    pub raw_data: u32,
}

/// The credential number: facility code followed by a five-digit card number.
pub open spec fn fob_of(facility: u32, card: u32) -> int {
    facility * 100_000 + card
}

/// `x` with its four bytes in reverse order.
pub open spec fn byte_swap(x: u32) -> u32 {
    ((x & 0xFF) << 24) | (((x >> 8) & 0xFF) << 16) | (((x >> 16) & 0xFF) << 8) | (x >> 24)
}

impl WiegandRead {
    /// Converts to the facility/card credential number.
    pub fn to_fob(&self) -> (r: u32)
        requires
            fob_of(self.facility, self.card) <= u32::MAX,
        ensures
            r == fob_of(self.facility, self.card),
    {
        self.facility * 100_000 + self.card
    }

    /// Converts the raw payload to an NFC UID (the payload byte-reversed).
    pub fn to_nfc_uid(&self) -> (r: u32)
        ensures
            r == byte_swap(self.raw_data),
    {
        let x = self.raw_data;
        ((x & 0xFF) << 24) | (((x >> 8) & 0xFF) << 16) | (((x >> 16) & 0xFF) << 8) | (x >> 24)
    }
}

/// Payload of a 26-bit frame: the 24 bits between the parity bits.
pub open spec fn payload_26(raw: u64) -> u32 {
    ((raw as u32) >> 1) & 0xFF_FFFF
}

/// A 26-bit frame whose leading bit gives even parity over the upper twelve
/// payload bits and whose trailing bit gives odd parity over the lower twelve.
pub open spec fn valid_26(raw: u64) -> bool {
    let r = raw as u32;
    let data = payload_26(raw);
    &&& parity(data >> 12, 12) == (r >> 25) & 1
    &&& parity(data & 0xFFF, 12) != r & 1
}

/// Payload of a 34-bit frame: the 32 bits between the parity bits.
pub open spec fn payload_34(raw: u64) -> u32 {
    ((raw >> 1) & 0xFFFF_FFFF) as u32
}

/// A 34-bit frame with even parity over the upper sixteen payload bits and odd
/// parity over the lower sixteen.
pub open spec fn valid_34(raw: u64) -> bool {
    let data = payload_34(raw);
    &&& parity(data >> 16, 16) == ((raw >> 33) & 1) as u32
    &&& parity(data & 0xFFFF, 16) != (raw & 1) as u32
}

/// The credential a payload carries: facility from bits 16..24 (only the low
/// eight bits of a 16-bit facility field survive), card from bits 0..16.
pub open spec fn read_of(data: u32) -> WiegandRead {
    WiegandRead { facility: (data >> 16) & 0xFF, card: data & 0xFFFF, raw_data: data }
}

pub open spec fn decode_26_spec(raw: u64) -> Option<WiegandRead> {
    if valid_26(raw) {
        Some(read_of(payload_26(raw)))
    } else {
        None
    }
}

pub open spec fn decode_34_spec(raw: u64) -> Option<WiegandRead> {
    if valid_34(raw) {
        Some(read_of(payload_34(raw)))
    } else {
        None
    }
}

/// Decoding of an accumulated frame of `count` bits.
pub open spec fn decode_frame_spec(count: u64, bits: u64) -> Option<WiegandRead> {
    if count == 26 {
        decode_26_spec(bits)
    } else if count == 34 {
        decode_34_spec(bits)
    } else {
        None
    }
}

/// Number of bits in a packed accumulator value.
pub open spec fn frame_count(state: u64) -> u64 {
    state >> COUNT_SHIFT
}

/// Bits of a packed accumulator value, the first received the most significant.
pub open spec fn frame_bits(state: u64) -> u64 {
    state & BITS_MASK
}

/// The accumulator after one more bit, or `None` once it holds the most bits a frame may have.
pub open spec fn push_bit_spec(state: u64, bit: u64) -> Option<u64> {
    if frame_count(state) >= MAX_FRAME_BITS {
        None
    } else {
        Some((((frame_count(state) + 1) as u64) << COUNT_SHIFT) | ((((frame_bits(state) << 1) as u64) | bit) & BITS_MASK))
    }
}

/// A transition at `now` that comes too soon after the one accepted at `last`
/// (0: none yet); a clock reading before `last` counts as no time elapsed.
pub open spec fn bounced(last: u64, now: u64) -> bool {
    last != 0 && (now < last || now - last < DEBOUNCE_US)
}

/// The frame in `state` is complete at `now`: it holds at least one bit and
/// the line has been quiet for `END_OF_TX_US` since the last one (a clock
/// reading before `last` counts as no time elapsed).
pub open spec fn frame_ready_spec(state: u64, last: u64, now: u64) -> bool {
    frame_count(state) != 0 && now >= last && now - last >= END_OF_TX_US
}

/// The accumulator holds both the count and the bits of the frame in progress, so
/// that the edge handler and the consumer update them together with one
/// compare-and-swap and neither ever waits on a lock.
pub struct Wiegand {
    state: portable_atomic::AtomicU64,
    last_bit_us: portable_atomic::AtomicU64,
}

impl Wiegand {
    /// An empty accumulator.
    pub fn new() -> (r: Wiegand) {
        Wiegand {
            state: portable_atomic::AtomicU64::new(0),
            last_bit_us: portable_atomic::AtomicU64::new(0),
        }
    }

    /// Decodes a 26-bit frame; `None` when either parity check fails.
    pub fn decode_26(raw: u64) -> (r: Option<WiegandRead>)
        ensures
            r == decode_26_spec(raw),
    {
        let r = raw as u32;
        let leading = (r >> 25) & 1;
        let trailing = r & 1;
        let data = (r >> 1) & 0xFF_FFFF;
        let upper = data >> 12;
        let lower = data & 0xFFF;
        let even_ok = parity_bits(upper, 12) == leading;
        let odd_ok = parity_bits(lower, 12) != trailing;
        if !even_ok || !odd_ok {
            return None;
        }
        Some(WiegandRead { facility: (data >> 16) & 0xFF, card: data & 0xFFFF, raw_data: data })
    }

    /// Decodes a 34-bit frame; `None` when either parity check fails.
    pub fn decode_34(raw: u64) -> (r: Option<WiegandRead>)
        ensures
            r == decode_34_spec(raw),
    {
        let leading = ((raw >> 33) & 1) as u32;
        let trailing = (raw & 1) as u32;
        let data = ((raw >> 1) & 0xFFFF_FFFF) as u32;
        let upper = data >> 16;
        let lower = data & 0xFFFF;
        let even_ok = parity_bits(upper, 16) == leading;
        let odd_ok = parity_bits(lower, 16) != trailing;
        if !even_ok || !odd_ok {
            return None;
        }
        Some(WiegandRead { facility: (data >> 16) & 0xFF, card: data & 0xFFFF, raw_data: data })
    }

    /// Decodes an accumulated frame: only 26 and 34 bits are accepted.
    pub fn decode_frame(count: u64, bits: u64) -> (r: Option<WiegandRead>)
        ensures
            r == decode_frame_spec(count, bits),
    {
        if count == 26 {
            Self::decode_26(bits)
        } else if count == 34 {
            Self::decode_34(bits)
        } else {
            None
        }
    }

    /// Appends one bit to a packed accumulator value.
    pub fn push_bit(state: u64, bit: u8) -> (r: Option<u64>)
        requires
            bit <= 1,
        ensures
            r == push_bit_spec(state, bit as u64),
            r matches Some(s) ==> frame_count(s) == frame_count(state) + 1,
    {
        let count = state >> 56;
        if count >= 64 {
            return None;
        }
        let bits = state & BITS_MASK;
        let b = bit as u64;
        let new_bits = (bits << 1) | b;
        let new_count = count + 1;
        let r = (new_count << 56) | (new_bits & BITS_MASK);
        assert(((new_count << 56) | (new_bits & BITS_MASK)) >> 56 == new_count) by (bit_vector)
            requires
                new_count <= 64,
        ;
        Some(r)
    }

    /// Whether a transition on a line at `now_us` is accepted, given the time of the
    /// previously accepted one.
    pub fn accepts_transition(last_us: u64, now_us: u64) -> (r: bool)
        ensures
            r == !bounced(last_us, now_us),
    {
        !(last_us != 0 && (now_us < last_us || now_us - last_us < DEBOUNCE_US))
    }

    /// Whether the frame in accumulator value `state` is complete at `now_us`,
    /// given the time of its last bit.
    pub fn frame_ready(state: u64, last_us: u64, now_us: u64) -> (r: bool)
        ensures
            r == frame_ready_spec(state, last_us, now_us),
    {
        (state >> 56) != 0 && now_us >= last_us && now_us - last_us >= END_OF_TX_US
    }

    /// Records one bit (line A gives 0, line B gives 1) seen at `now_us`.
    /// Transitions inside the debounce window and bits beyond the largest frame
    /// are dropped.
    pub fn record_bit(&self, bit: u8, now_us: u64)
        requires
            bit <= 1,
    {
        let last = self.last_bit_us.load(core::sync::atomic::Ordering::Relaxed);
        if !Self::accepts_transition(last, now_us) {
            return;
        }
        let mut attempts: u32 = 0;
        while attempts < CAS_RETRY_LIMIT
            invariant
                bit <= 1,
            decreases CAS_RETRY_LIMIT - attempts,
        {
            let state = self.state.load(core::sync::atomic::Ordering::Acquire);
            let next = match Self::push_bit(state, bit) {
                Some(s) => s,
                None => return,
            };
            let swapped = self.state.compare_exchange(
                state,
                next,
                core::sync::atomic::Ordering::AcqRel,
                core::sync::atomic::Ordering::Acquire,
            );
            if swapped.is_ok() {
                self.last_bit_us.store(now_us, core::sync::atomic::Ordering::Release);
                return;
            }
            attempts = attempts + 1;
        }
    }

    /// Takes the frame once the line has been quiet for the end-of-frame time and
    /// decodes it. `None` while no frame is complete or when it does not decode.
    /// Whatever it returns is the decoding of an accumulator value it claimed.
    pub fn poll(&self, now_us: u64) -> (r: Option<WiegandRead>)
        ensures
            r matches Some(x) ==> exists|state: u64|
                frame_count(state) != 0 && decode_frame_spec(frame_count(state), frame_bits(state))
                    == Some(x),
    {
        let mut attempts: u32 = 0;
        while attempts < CAS_RETRY_LIMIT
            decreases CAS_RETRY_LIMIT - attempts,
        {
            let state = self.state.load(core::sync::atomic::Ordering::Acquire);
            let last = self.last_bit_us.load(core::sync::atomic::Ordering::Acquire);
            if !Self::frame_ready(state, last, now_us) {
                return None;
            }
            let count = state >> 56;
            let claimed = self.state.compare_exchange(
                state,
                0,
                core::sync::atomic::Ordering::AcqRel,
                core::sync::atomic::Ordering::Acquire,
            );
            if claimed.is_ok() {
                self.last_bit_us.store(0, core::sync::atomic::Ordering::Release);
                return Self::decode_frame(count, state & BITS_MASK);
            }
            attempts = attempts + 1;
        }
        None
    }
}

} // verus!

verus! {

proof fn lemma_flip_bit(x: u32, j: u32, i: u32)
    requires
        j < 32,
        i < 32,
    ensures
        ((x ^ (1u32 << j)) >> i) & 1 == (if i == j { ((x >> i) & 1) ^ 1 } else { (x >> i) & 1 }),
{
    assert(((x ^ (1u32 << j)) >> i) & 1 == (if i == j { ((x >> i) & 1) ^ 1 } else { (x >> i) & 1 }))
        by (bit_vector)
        requires
            j < 32,
            i < 32,
    ;
}

proof fn lemma_parity_is_bit(x: u32, n: nat)
    ensures
        parity(x, n) <= 1,
    decreases n,
{
    if n > 0 {
        lemma_parity_is_bit(x, (n - 1) as nat);
        let p = parity(x, (n - 1) as nat);
        let b = bit_of(x, (n - 1) as nat);
        let i = (n - 1) as u32;
        assert(b <= 1) by (bit_vector)
            requires
                b == (x >> i) & 1,
        ;
        assert(p ^ b <= 1) by (bit_vector)
            requires
                p <= 1,
                b <= 1,
        ;
    }
}

/// Flipping a bit at or above position `n` leaves the parity of the lowest `n` bits.
proof fn lemma_parity_flip_above(x: u32, j: u32, n: nat)
    requires
        n <= j < 32,
    ensures
        parity(x ^ (1u32 << j), n) == parity(x, n),
    decreases n,
{
    if n > 0 {
        lemma_parity_flip_above(x, j, (n - 1) as nat);
        lemma_flip_bit(x, j, (n - 1) as u32);
    }
}

/// Flipping one of the lowest `n` bits flips their parity.
pub proof fn lemma_parity_flip(x: u32, j: u32, n: nat)
    requires
        j < n <= 32,
    ensures
        parity(x ^ (1u32 << j), n) == parity(x, n) ^ 1,
    decreases n,
{
    let m = (n - 1) as nat;
    let y = x ^ (1u32 << j);
    lemma_flip_bit(x, j, m as u32);
    let b = bit_of(x, m);
    let p = parity(x, m);
    if m == j {
        lemma_parity_flip_above(x, j, m);
        assert((p ^ (b ^ 1)) == (p ^ b) ^ 1) by (bit_vector);
    } else {
        lemma_parity_flip(x, j, m);
        assert(((p ^ 1) ^ b) == (p ^ b) ^ 1) by (bit_vector);
    }
}

proof fn lemma_xor_one(t: u32)
    requires
        t <= 1,
    ensures
        (t ^ 1) ^ 1 == t,
        t ^ 1 != t,
        t ^ 1 <= 1,
{
    assert((t ^ 1) ^ 1 == t && t ^ 1 != t && t ^ 1 <= 1) by (bit_vector)
        requires
            t <= 1,
    ;
}

proof fn lemma_parity_bit_ne(p: u32, t: u32)
    requires
        p <= 1,
        t <= 1,
        p != t,
    ensures
        p == t ^ 1,
{
    assert(p == t ^ 1) by (bit_vector)
        requires
            p <= 1,
            t <= 1,
            p != t,
    ;
}

/// Every single-bit corruption of a valid 26-bit frame fails a parity check.
pub proof fn lemma_decode_26_rejects_bit_flip(raw: u64, k: u64)
    requires
        valid_26(raw),
        k < 26,
    ensures
        decode_26_spec(raw ^ (1u64 << k)) is None,
{
    let flipped = raw ^ (1u64 << k);
    let r = raw as u32;
    let rf = flipped as u32;
    let data = payload_26(raw);
    let dataf = payload_26(flipped);
    let kk = k as u32;
    assert(rf == r ^ (1u32 << kk)) by (bit_vector)
        requires
            rf == (raw ^ (1u64 << k)) as u32,
            r == raw as u32,
            kk == k as u32,
            k < 26,
    ;
    lemma_parity_is_bit(data >> 12, 12);
    lemma_parity_is_bit(data & 0xFFF, 12);
    assert((r >> 25) & 1 <= 1 && r & 1 <= 1) by (bit_vector);
    lemma_xor_one((r >> 25) & 1);
    lemma_xor_one(r & 1);
    lemma_xor_one(parity(data >> 12, 12));
    lemma_xor_one(parity(data & 0xFFF, 12));
    if k == 0 {
        assert(dataf == data && (rf >> 25) & 1 == (r >> 25) & 1 && rf & 1 == (r & 1) ^ 1)
            by (bit_vector)
            requires
                rf == r ^ (1u32 << 0u32),
                dataf == (rf >> 1) & 0xFF_FFFF,
                data == (r >> 1) & 0xFF_FFFF,
        ;
        assert(r & 1 <= 1) by (bit_vector);
        lemma_parity_bit_ne(parity(data & 0xFFF, 12), r & 1);
    } else if k == 25 {
        assert(dataf == data && (rf >> 25) & 1 == ((r >> 25) & 1) ^ 1 && rf & 1 == r & 1)
            by (bit_vector)
            requires
                rf == r ^ (1u32 << 25u32),
                dataf == (rf >> 1) & 0xFF_FFFF,
                data == (r >> 1) & 0xFF_FFFF,
        ;
        assert((r >> 25) & 1 <= 1) by (bit_vector);
    } else if k <= 12 {
        let j = (kk - 1) as u32;
        assert(dataf >> 12 == data >> 12 && dataf & 0xFFF == (data & 0xFFF) ^ (1u32 << j)
            && (rf >> 25) & 1 == (r >> 25) & 1 && rf & 1 == r & 1) by (bit_vector)
            requires
                rf == r ^ (1u32 << kk),
                1 <= kk <= 12,
                j == kk - 1,
                dataf == (rf >> 1) & 0xFF_FFFF,
                data == (r >> 1) & 0xFF_FFFF,
        ;
        lemma_parity_flip(data & 0xFFF, j, 12);
        assert(r & 1 <= 1) by (bit_vector);
        lemma_parity_bit_ne(parity(data & 0xFFF, 12), r & 1);
    } else {
        let j = (kk - 13) as u32;
        assert(dataf >> 12 == (data >> 12) ^ (1u32 << j) && dataf & 0xFFF == data & 0xFFF
            && (rf >> 25) & 1 == (r >> 25) & 1 && rf & 1 == r & 1) by (bit_vector)
            requires
                rf == r ^ (1u32 << kk),
                13 <= kk <= 24,
                j == kk - 13,
                dataf == (rf >> 1) & 0xFF_FFFF,
                data == (r >> 1) & 0xFF_FFFF,
        ;
        lemma_parity_flip(data >> 12, j, 12);
    }
}

/// Every single-bit corruption of a valid 34-bit frame fails a parity check.
pub proof fn lemma_decode_34_rejects_bit_flip(raw: u64, k: u64)
    requires
        valid_34(raw),
        k < 34,
    ensures
        decode_34_spec(raw ^ (1u64 << k)) is None,
{
    let flipped = raw ^ (1u64 << k);
    let data = payload_34(raw);
    let dataf = payload_34(flipped);
    let lead = ((raw >> 33) & 1) as u32;
    let trail = (raw & 1) as u32;
    let leadf = ((flipped >> 33) & 1) as u32;
    let trailf = (flipped & 1) as u32;
    lemma_parity_is_bit(data >> 16, 16);
    lemma_parity_is_bit(data & 0xFFFF, 16);
    lemma_xor_one(parity(data >> 16, 16));
    lemma_xor_one(parity(data & 0xFFFF, 16));
    assert(lead <= 1 && trail <= 1) by (bit_vector)
        requires
            lead == ((raw >> 33) & 1) as u32,
            trail == (raw & 1) as u32,
    ;
    lemma_xor_one(lead);
    lemma_xor_one(trail);
    if k == 0 {
        assert(dataf == data && leadf == lead && trailf == trail ^ 1) by (bit_vector)
            requires
                flipped == raw ^ (1u64 << 0u64),
                dataf == ((flipped >> 1) & 0xFFFF_FFFF) as u32,
                data == ((raw >> 1) & 0xFFFF_FFFF) as u32,
                lead == ((raw >> 33) & 1) as u32,
                trail == (raw & 1) as u32,
                leadf == ((flipped >> 33) & 1) as u32,
                trailf == (flipped & 1) as u32,
        ;
        lemma_parity_bit_ne(parity(data & 0xFFFF, 16), trail);
    } else if k == 33 {
        assert(dataf == data && leadf == lead ^ 1 && trailf == trail) by (bit_vector)
            requires
                flipped == raw ^ (1u64 << 33u64),
                dataf == ((flipped >> 1) & 0xFFFF_FFFF) as u32,
                data == ((raw >> 1) & 0xFFFF_FFFF) as u32,
                lead == ((raw >> 33) & 1) as u32,
                trail == (raw & 1) as u32,
                leadf == ((flipped >> 33) & 1) as u32,
                trailf == (flipped & 1) as u32,
        ;
    } else if k <= 16 {
        let j = (k - 1) as u32;
        assert(dataf >> 16 == data >> 16 && dataf & 0xFFFF == (data & 0xFFFF) ^ (1u32 << j)
            && leadf == lead && trailf == trail) by (bit_vector)
            requires
                flipped == raw ^ (1u64 << k),
                1 <= k <= 16,
                j == (k - 1) as u32,
                dataf == ((flipped >> 1) & 0xFFFF_FFFF) as u32,
                data == ((raw >> 1) & 0xFFFF_FFFF) as u32,
                lead == ((raw >> 33) & 1) as u32,
                trail == (raw & 1) as u32,
                leadf == ((flipped >> 33) & 1) as u32,
                trailf == (flipped & 1) as u32,
        ;
        lemma_parity_flip(data & 0xFFFF, j, 16);
        lemma_parity_bit_ne(parity(data & 0xFFFF, 16), trail);
    } else {
        let j = (k - 17) as u32;
        assert(dataf >> 16 == (data >> 16) ^ (1u32 << j) && dataf & 0xFFFF == data & 0xFFFF
            && leadf == lead && trailf == trail) by (bit_vector)
            requires
                flipped == raw ^ (1u64 << k),
                17 <= k <= 32,
                j == (k - 17) as u32,
                dataf == ((flipped >> 1) & 0xFFFF_FFFF) as u32,
                data == ((raw >> 1) & 0xFFFF_FFFF) as u32,
                lead == ((raw >> 33) & 1) as u32,
                trail == (raw & 1) as u32,
                leadf == ((flipped >> 33) & 1) as u32,
                trailf == (flipped & 1) as u32,
        ;
        lemma_parity_flip(data >> 16, j, 16);
    }
}

} // verus!
