//! State shared by the real-time context and the network/persistence context:
//! the authorization cache (a single-writer seqlock), a lock-free event ring,
//! the unlock request flag and the flash write-safety handshake. Every field is
//! an atomic, so neither context ever waits on a lock the other holds.
use vstd::prelude::*;

use core::sync::atomic::{AtomicBool, AtomicU16, AtomicU32, AtomicU8, Ordering};

use crate::events::AccessEvent;
use crate::{MAX_EVENTS, MAX_FOBS};

verus! {

/// Attempts `check_fob` makes to get a consistent read before it fails closed.
pub const MAX_RETRIES: u32 = 100;

/// Spins `peek_events` waits on a claimed but unwritten slot before skipping it.
pub const MAX_SLOT_SPINS: u32 = 1000;

/// Attempts `push_event` makes to claim a slot.
pub const MAX_PUSH_ATTEMPTS: u32 = 10_000;

/// Mask of the credential part of a packed event.
pub const EVENT_FOB_MASK: u32 = 0x7FFF_FFFF;

/// Flash write coordination between the flash writer and the real-time path:
/// `Idle -> Requested -> Safe -> Done -> Idle`.
#[derive(Debug, Clone, Copy, PartialEq, Eq, Structural)]
pub enum FlashState {
    /// No flash operation pending.
    Idle,
    /// The writer asks for a flash write.
    Requested,
    /// The real-time path holds no lock and waits.
    Safe,
    /// The writer has finished.
    Done,
}

/// The state a stored byte stands for; unknown values read as `Idle`.
pub open spec fn flash_state_of(v: u8) -> FlashState {
    if v == 1 {
        FlashState::Requested
    } else if v == 2 {
        FlashState::Safe
    } else if v == 3 {
        FlashState::Done
    } else {
        FlashState::Idle
    }
}

/// The byte that stores a state.
pub open spec fn flash_state_code(s: FlashState) -> u8 {
    match s {
        FlashState::Idle => 0,
        FlashState::Requested => 1,
        FlashState::Safe => 2,
        FlashState::Done => 3,
    }
}

impl From<u8> for FlashState {
    fn from(v: u8) -> FlashState {
        if v == 1 {
            FlashState::Requested
        } else if v == 2 {
            FlashState::Safe
        } else if v == 3 {
            FlashState::Done
        } else {
            FlashState::Idle
        }
    }
}

impl vstd::std_specs::convert::FromSpecImpl<u8> for FlashState {
    open spec fn obeys_from_spec() -> bool {
        true
    }

    open spec fn from_spec(v: u8) -> FlashState {
        flash_state_of(v)
    }
}

impl FlashState {
    /// The byte that stores this state.
    pub fn code(&self) -> (r: u8)
        ensures
            r == flash_state_code(*self),
            flash_state_of(r) == *self,
    {
        match self {
            FlashState::Idle => 0,
            FlashState::Requested => 1,
            FlashState::Safe => 2,
            FlashState::Done => 3,
        }
    }
}

/// What the flash writer does next while it waits for the safe state.
#[derive(Debug, Clone, Copy, PartialEq, Eq, Structural)]
pub enum SafeWait {
    /// The real-time path is safe: write now.
    Proceed,
    /// Not yet safe: wait a little and ask again.
    Wait,
    /// The state left `Requested` some other way: give up.
    Abandoned,
    /// The timeout passed: the state went back to `Idle`; give up.
    TimedOut,
}

/// The writer's decision from the state it saw and the time waited so far.
pub open spec fn safe_wait_spec(state: FlashState, elapsed_ms: u64, timeout_ms: u64) -> SafeWait {
    if state == FlashState::Safe {
        SafeWait::Proceed
    } else if state != FlashState::Requested {
        SafeWait::Abandoned
    } else if elapsed_ms > timeout_ms {
        SafeWait::TimedOut
    } else {
        SafeWait::Wait
    }
}

/// Decides the writer's next step while waiting for the safe state.
pub fn safe_wait_decision(state: FlashState, elapsed_ms: u64, timeout_ms: u64) -> (r: SafeWait)
    ensures
        r == safe_wait_spec(state, elapsed_ms, timeout_ms),
{
    if state == FlashState::Safe {
        SafeWait::Proceed
    } else if state != FlashState::Requested {
        SafeWait::Abandoned
    } else if elapsed_ms > timeout_ms {
        SafeWait::TimedOut
    } else {
        SafeWait::Wait
    }
}

/// The credential an event is stored under: only the low 31 bits are kept,
/// and as 0 marks a slot not yet written, a credential whose low 31 bits are
/// all zero is stored as 1.
pub open spec fn stored_fob(fob: u32) -> u32 {
    if fob & EVENT_FOB_MASK == 0 {
        1
    } else {
        fob & EVENT_FOB_MASK
    }
}

/// An event packed in one word: bit 31 is `allowed`, bits 0..31 the credential.
pub open spec fn packed_event(fob: u32, allowed: bool) -> u32 {
    stored_fob(fob) | (if allowed {
        0x8000_0000u32
    } else {
        0u32
    })
}

/// The event a packed word holds.
pub open spec fn unpacked_event(v: u32) -> AccessEvent {
    AccessEvent { fob: v & EVENT_FOB_MASK, allowed: (v >> 31) != 0 }
}

/// Packs an event into one word.
pub fn pack_event(fob: u32, allowed: bool) -> (r: u32)
    ensures
        r == packed_event(fob, allowed),
{
    let low = fob & EVENT_FOB_MASK;
    let safe_fob = if low == 0 {
        1
    } else {
        low
    };
    let flag: u32 = if allowed {
        0x8000_0000
    } else {
        0
    };
    safe_fob | flag
}

/// Unpacks a word written by `pack_event`.
pub fn unpack_event(v: u32) -> (r: AccessEvent)
    ensures
        r == unpacked_event(v),
{
    AccessEvent { fob: v & EVENT_FOB_MASK, allowed: (v >> 31) != 0 }
}

/// A packed event reads back with its `allowed` flag and its stored credential,
/// which is never the "not yet written" marker 0.
pub proof fn lemma_pack_round_trip(fob: u32, allowed: bool)
    ensures
        unpacked_event(packed_event(fob, allowed)) == (AccessEvent {
            fob: stored_fob(fob),
            allowed,
        }),
        stored_fob(fob) != 0,
{
    let s = stored_fob(fob);
    assert(s != 0) by (bit_vector)
        requires
            s == (if fob & 0x7FFF_FFFF == 0 {
                1u32
            } else {
                fob & 0x7FFF_FFFF
            }),
    ;
    let f: u32 = if allowed {
        0x8000_0000u32
    } else {
        0u32
    };
    assert(((s | f) & 0x7FFF_FFFF) == s && (((s | f) >> 31) != 0) == (f != 0)) by (bit_vector)
        requires
            s == (if fob & 0x7FFF_FFFF == 0 {
                1u32
            } else {
                fob & 0x7FFF_FFFF
            }),
            f == 0x8000_0000u32 || f == 0u32,
    ;
}

/// The tail position a commit of `count` events from snapshot `tail` aims at.
pub fn commit_position(tail: u16, count: usize) -> (r: u16)
    ensures
        r == (tail + count) % (MAX_EVENTS as int),
{
    let p = ((tail as usize) % MAX_EVENTS + count % MAX_EVENTS) % MAX_EVENTS;
    assert(p == (tail + count) % 20) by (nonlinear_arith)
        requires
            p == ((tail as usize) % 20 + count % 20) % 20,
    ;
    p as u16
}

/// Whether a scan bracketed by generation reads `seq1` and `seq2` counts:
/// both equal and even, so no replace was in progress or happened meanwhile.
pub open spec fn read_consistent(seq1: u32, seq2: u32) -> bool {
    seq1 % 2 == 0 && seq1 == seq2
}

/// A scan may start after reading `seq1`: no replace is in progress.
pub fn scan_may_start(seq1: u32) -> (r: bool)
    ensures
        r == (seq1 % 2 == 0),
{
    seq1 % 2 == 0
}

/// Whether the scan between generation reads `seq1` and `seq2` counts.
pub fn scan_consistent(seq1: u32, seq2: u32) -> (r: bool)
    ensures
        r == read_consistent(seq1, seq2),
{
    seq1 % 2 == 0 && seq1 == seq2
}

/// What `push_event` does after reading the head and tail positions.
#[derive(Debug, Clone, Copy, PartialEq, Eq, Structural)]
pub enum PushStep {
    /// The ring is full: move the tail from `tail` to `new_tail`, then try again.
    DropOldest { tail: u16, new_tail: u16 },
    /// Claim `slot` by moving the head to `next_head`, then write the event there.
    Claim { slot: usize, next_head: u16 },
}

pub open spec fn push_step_spec(head: u16, tail: u16) -> PushStep {
    let h = (head as int) % (MAX_EVENTS as int);
    let next = (h + 1) % (MAX_EVENTS as int);
    if next == tail as int {
        PushStep::DropOldest { tail, new_tail: ((tail as int + 1) % (MAX_EVENTS as int)) as u16 }
    } else {
        PushStep::Claim { slot: h as usize, next_head: next as u16 }
    }
}

/// Decides the next step of `push_event` from the positions it read.
pub fn push_step(head: u16, tail: u16) -> (r: PushStep)
    ensures
        r == push_step_spec(head, tail),
        r matches PushStep::Claim { slot, next_head } ==> slot < MAX_EVENTS,
{
    let h = head as usize % MAX_EVENTS;
    let next = (h + 1) % MAX_EVENTS;
    if next == tail as usize {
        PushStep::DropOldest { tail, new_tail: ((tail as usize + 1) % MAX_EVENTS) as u16 }
    } else {
        PushStep::Claim { slot: h, next_head: next as u16 }
    }
}

/// Relies on core::hint::spin_loop: a hint to the processor, no other effect.
#[verifier::external_body]
fn spin_hint() {
    core::hint::spin_loop()
}

/// Relies on core::sync::atomic::fence with `Release`: earlier stores become
/// visible before later ones; no other effect.
#[verifier::external_body]
fn release_fence() {
    core::sync::atomic::fence(Ordering::Release)
}

/// State shared between the real-time context and the network context.
pub struct Shared {
    /// Credential list, written by the network context, read by the real-time one.
    fobs: Vec<AtomicU32>,
    fob_count: AtomicU16,
    /// Generation token: odd while a replace is in progress, even when stable.
    update_seq: AtomicU32,
    /// Event ring of packed events (credential 0 marks a claimed, unwritten slot).
    events: Vec<AtomicU32>,
    event_head: AtomicU16,
    event_tail: AtomicU16,
    unlock_request: AtomicBool,
    flash_state: AtomicU8,
}

impl Shared {
    #[verifier::type_invariant]
    spec fn inv(self) -> bool {
        &&& self.fobs@.len() == MAX_FOBS
        &&& self.events@.len() == MAX_EVENTS
    }

    /// Empty cache, empty event ring, no unlock request, handshake idle.
    pub fn new() -> (r: Shared) {
        let mut fobs: Vec<AtomicU32> = Vec::new();
        let mut i: usize = 0;
        while i < MAX_FOBS
            invariant
                i <= MAX_FOBS,
                fobs@.len() == i,
            decreases MAX_FOBS - i,
        {
            fobs.push(AtomicU32::new(0));
            i = i + 1;
        }
        let mut events: Vec<AtomicU32> = Vec::new();
        let mut j: usize = 0;
        while j < MAX_EVENTS
            invariant
                j <= MAX_EVENTS,
                events@.len() == j,
            decreases MAX_EVENTS - j,
        {
            events.push(AtomicU32::new(0));
            j = j + 1;
        }
        Shared {
            fobs,
            fob_count: AtomicU16::new(0),
            update_seq: AtomicU32::new(0),
            events,
            event_head: AtomicU16::new(0),
            event_tail: AtomicU16::new(0),
            unlock_request: AtomicBool::new(false),
            flash_state: AtomicU8::new(0),
        }
    }

    /// Whether `fob` is authorized. Reads the generation token, scans the
    /// list, and re-reads the token: the scan counts only when both reads
    /// agree and are even; otherwise it retries. After `MAX_RETRIES` attempts
    /// it fails closed and returns `false`. Why an accepted scan never mixes
    /// two lists is `lemma_consistent_read_sees_completed_replace`.
    pub fn check_fob(&self, fob: u32) -> (r: bool) {
        proof {
            use_type_invariant(self);
        }
        let mut retries: u32 = 0;
        while retries < MAX_RETRIES
            invariant
                self.fobs@.len() == MAX_FOBS,
            decreases MAX_RETRIES - retries,
        {
            let seq1 = self.update_seq.load(Ordering::Acquire);
            if !scan_may_start(seq1) {
                spin_hint();
                retries = retries + 1;
                continue;
            }
            let count = self.fob_count.load(Ordering::Relaxed) as usize;
            let n = if count < MAX_FOBS {
                count
            } else {
                MAX_FOBS
            };
            let mut found = false;
            let mut i: usize = 0;
            while i < n
                invariant
                    n <= MAX_FOBS,
                    self.fobs@.len() == MAX_FOBS,
                decreases n - i,
            {
                if self.fobs[i].load(Ordering::Relaxed) == fob {
                    found = true;
                    break;
                }
                i = i + 1;
            }
            let seq2 = self.update_seq.load(Ordering::Acquire);
            if scan_consistent(seq1, seq2) {
                return found;
            }
            retries = retries + 1;
        }
        false
    }

    /// Records an access event; when the ring is full the oldest event is
    /// discarded. The slot is claimed by advancing the head, then written.
    pub fn push_event(&self, fob: u32, allowed: bool) {
        proof {
            use_type_invariant(self);
        }
        let packed = pack_event(fob, allowed);
        let mut attempts: u32 = 0;
        while attempts < MAX_PUSH_ATTEMPTS
            invariant
                self.events@.len() == MAX_EVENTS,
            decreases MAX_PUSH_ATTEMPTS - attempts,
        {
            attempts = attempts + 1;
            let head = self.event_head.load(Ordering::Acquire);
            let tail = self.event_tail.load(Ordering::Acquire);
            match push_step(head, tail) {
                PushStep::DropOldest { tail, new_tail } => {
                    let _ = self.event_tail.compare_exchange(
                        tail,
                        new_tail,
                        Ordering::AcqRel,
                        Ordering::Relaxed,
                    );
                },
                PushStep::Claim { slot, next_head } => {
                    let claimed = self.event_head.compare_exchange(
                        head,
                        next_head,
                        Ordering::AcqRel,
                        Ordering::Relaxed,
                    );
                    if claimed.is_ok() {
                        self.events[slot].store(packed, Ordering::Release);
                        return;
                    }
                },
            }
        }
    }

    /// Copies the pending events, oldest first, into `out` without removing
    /// them, and returns how many were copied with the tail position to hand
    /// to `commit_events`. A slot claimed but not yet written is waited on
    /// briefly and then skipped, so no copied event has credential 0.
    pub fn peek_events(&self, out: &mut [AccessEvent]) -> (r: (usize, u16))
        ensures
            r.0 <= old(out)@.len(),
            final(out)@.len() == old(out)@.len(),
            forall|j: int| 0 <= j < r.0 ==> #[trigger] final(out)@[j].fob != 0,
            forall|j: int| r.0 <= j < old(out)@.len() ==> #[trigger] final(out)@[j] == old(out)@[j],
    {
        proof {
            use_type_invariant(self);
        }
        let tail = self.event_tail.load(Ordering::Acquire);
        let head = self.event_head.load(Ordering::Acquire) as usize;
        let mut count: usize = 0;
        let mut idx = tail as usize;
        let mut steps: usize = 0;
        while idx != head && count < out.len() && steps < MAX_EVENTS
            invariant
                self.events@.len() == MAX_EVENTS,
                count <= steps,
                idx <= 0xFFFF,
                count <= out@.len(),
                out@.len() == old(out)@.len(),
                forall|j: int| 0 <= j < count ==> #[trigger] out@[j].fob != 0,
                forall|j: int| count <= j < out@.len() ==> #[trigger] out@[j] == old(out)@[j],
            decreases MAX_EVENTS - steps,
        {
            let mut spins: u32 = 0;
            let mut ready = false;
            let mut value: u32 = 0;
            while spins <= MAX_SLOT_SPINS && !ready
                invariant
                    self.events@.len() == MAX_EVENTS,
                    ready ==> value & EVENT_FOB_MASK != 0,
                decreases MAX_SLOT_SPINS + 1 - spins,
            {
                let v = self.events[idx % MAX_EVENTS].load(Ordering::Acquire);
                if v & EVENT_FOB_MASK != 0 {
                    value = v;
                    ready = true;
                } else {
                    spin_hint();
                }
                spins = spins + 1;
            }
            if ready {
                out[count] = unpack_event(value);
                count = count + 1;
            }
            idx = (idx + 1) % MAX_EVENTS;
            steps = steps + 1;
        }
        (count, tail)
    }

    /// Removes `count` events after the server acknowledged them, given the
    /// tail position `peek_events` returned; when overflow moved the tail
    /// since, the events are already gone and nothing changes.
    pub fn commit_events(&self, count: usize, expected_tail: u16) {
        let new_tail = commit_position(expected_tail, count);
        let _ = self.event_tail.compare_exchange(
            expected_tail,
            new_tail,
            Ordering::AcqRel,
            Ordering::Relaxed,
        );
    }

    /// Replaces the credential list (its first `MAX_FOBS` entries). The
    /// generation token turns odd before the first store and even again, after
    /// a release fence, once the new list and its count are stored: in order,
    /// the steps `replace_steps(fobs)` of the cache model.
    pub fn update_fobs(&self, fobs: &[u32]) {
        proof {
            use_type_invariant(self);
        }
        self.update_seq.fetch_add(1, Ordering::AcqRel);
        let count = if fobs.len() < MAX_FOBS {
            fobs.len()
        } else {
            MAX_FOBS
        };
        let mut i: usize = 0;
        while i < count
            invariant
                count <= MAX_FOBS,
                count <= fobs@.len(),
                self.fobs@.len() == MAX_FOBS,
            decreases count - i,
        {
            self.fobs[i].store(fobs[i], Ordering::Relaxed);
            i = i + 1;
        }
        self.fob_count.store(count as u16, Ordering::Relaxed);
        release_fence();
        self.update_seq.fetch_add(1, Ordering::Relaxed);
    }

    /// Asks the real-time path to pulse the door.
    pub fn request_unlock(&self) {
        self.unlock_request.store(true, Ordering::Release);
    }

    /// Takes a pending unlock request: `true` at most once per request.
    pub fn take_unlock_request(&self) -> (r: bool) {
        self.unlock_request.swap(false, Ordering::AcqRel)
    }

    /// The handshake state.
    pub fn flash_state(&self) -> (r: FlashState) {
        FlashState::from(self.flash_state.load(Ordering::Acquire))
    }

    /// Asks for a flash write: moves `Idle` to `Requested`. `false` when a
    /// flash operation is already under way.
    pub fn request_flash_write(&self) -> (r: bool) {
        self.flash_state.compare_exchange(0, 1, Ordering::AcqRel, Ordering::Relaxed).is_ok()
    }

    /// The real-time path reports that it holds no lock: `Requested` to `Safe`.
    pub fn signal_flash_safe(&self) {
        let _ = self.flash_state.compare_exchange(1, 2, Ordering::AcqRel, Ordering::Relaxed);
    }

    /// The writer reports that the flash write is over.
    pub fn signal_flash_done(&self) {
        self.flash_state.store(3, Ordering::Release);
    }

    /// The real-time path resumes: `Done` to `Idle`.
    pub fn acknowledge_flash_done(&self) {
        let _ = self.flash_state.compare_exchange(3, 0, Ordering::AcqRel, Ordering::Relaxed);
    }

    /// Whether a flash write is requested.
    pub fn is_flash_requested(&self) -> (r: bool) {
        self.flash_state() == FlashState::Requested
    }

    /// Whether a flash write is done and awaits acknowledgment.
    pub fn is_flash_done(&self) -> (r: bool) {
        self.flash_state() == FlashState::Done
    }

    /// One check of the writer's wait for the safe state, `elapsed_ms` after it
    /// began. On timeout the state goes back to `Idle`, so that the real-time
    /// path is never held.
    pub fn poll_flash_safe(&self, elapsed_ms: u64, timeout_ms: u64) -> (r: SafeWait)
        ensures
            r != SafeWait::Wait ==> elapsed_ms > timeout_ms || r == SafeWait::Proceed || r
                == SafeWait::Abandoned,
    {
        let state = self.flash_state();
        let step = safe_wait_decision(state, elapsed_ms, timeout_ms);
        if step == SafeWait::TimedOut {
            self.flash_state.store(0, Ordering::Release);
        }
        step
    }

    /// Number of credentials in the cache (for status display).
    pub fn fob_count(&self) -> (r: u16) {
        self.fob_count.load(Ordering::Relaxed)
    }
}

} // verus!

verus! {

/// The authorization cache's memory as both contexts see it: the generation
/// token, the stored count and the credential slots.
pub struct CacheMemory {
    pub generation: u32,
    pub count: nat,
    pub slots: Seq<u32>,
}

/// One store the writer makes to the cache's memory. `update_fobs` makes a
/// `Begin` (token to odd), a `Store` per credential, a `SetCount`, and an
/// `End` (token to even, after the release fence).
pub enum WriterStep {
    Begin,
    Store(int, u32),
    SetCount(nat),
    End,
}

/// The memory after one writer step; the token wraps like `fetch_add`.
pub open spec fn apply_step(m: CacheMemory, s: WriterStep) -> CacheMemory {
    match s {
        WriterStep::Store(i, v) => CacheMemory {
            generation: m.generation,
            count: m.count,
            slots: if 0 <= i < m.slots.len() {
                m.slots.update(i, v)
            } else {
                m.slots
            },
        },
        WriterStep::SetCount(n) => CacheMemory { generation: m.generation, count: n, slots: m.slots },
        _ => CacheMemory {
            generation: ((m.generation + 1) % 0x1_0000_0000) as u32,
            count: m.count,
            slots: m.slots,
        },
    }
}

/// The memory after a sequence of writer steps.
pub open spec fn run_steps(m: CacheMemory, steps: Seq<WriterStep>) -> CacheMemory
    decreases steps.len(),
{
    if steps.len() == 0 {
        m
    } else {
        apply_step(run_steps(m, steps.drop_last()), steps.last())
    }
}

/// The steps of one `update_fobs(fobs)`.
pub open spec fn replace_steps(fobs: Seq<u32>) -> Seq<WriterStep> {
    let n = if fobs.len() < MAX_FOBS {
        fobs.len()
    } else {
        MAX_FOBS as nat
    };
    seq![WriterStep::Begin] + Seq::new(n, |i: int| WriterStep::Store(i, fobs[i])) + seq![
        WriterStep::SetCount(n),
        WriterStep::End,
    ]
}

/// The steps of replacing the list with each of `lists` in turn.
pub open spec fn writer_steps(lists: Seq<Seq<u32>>) -> Seq<WriterStep>
    decreases lists.len(),
{
    if lists.len() == 0 {
        Seq::empty()
    } else {
        writer_steps(lists.drop_last()) + replace_steps(lists.last())
    }
}

/// The credential set the memory holds.
pub open spec fn cache_contents(m: CacheMemory) -> Seq<u32> {
    m.slots.take(m.count as int)
}

/// What one replace with `fobs` leaves in the cache: its first `MAX_FOBS`.
pub open spec fn replaced_contents(fobs: Seq<u32>) -> Seq<u32> {
    if fobs.len() < MAX_FOBS {
        fobs
    } else {
        fobs.take(MAX_FOBS as int)
    }
}

pub open spec fn is_tick(s: WriterStep) -> bool {
    s is Begin || s is End
}

/// Number of token increments among `steps`.
pub open spec fn ticks(steps: Seq<WriterStep>) -> nat
    decreases steps.len(),
{
    if steps.len() == 0 {
        0
    } else {
        ticks(steps.drop_last()) + if is_tick(steps.last()) {
            1nat
        } else {
            0nat
        }
    }
}

proof fn lemma_ticks_concat(x: Seq<WriterStep>, y: Seq<WriterStep>)
    ensures
        ticks(x + y) == ticks(x) + ticks(y),
    decreases y.len(),
{
    if y.len() == 0 {
        assert(x + y =~= x);
    } else {
        lemma_ticks_concat(x, y.drop_last());
        assert((x + y).drop_last() =~= x + y.drop_last());
    }
}

proof fn lemma_ticks_take_step(s: Seq<WriterStep>, j: int)
    requires
        0 <= j < s.len(),
    ensures
        ticks(s.take(j + 1)) == ticks(s.take(j)) + if is_tick(s[j]) {
            1nat
        } else {
            0nat
        },
{
    assert(s.take(j + 1).drop_last() =~= s.take(j));
}

proof fn lemma_ticks_growth(s: Seq<WriterStep>, a: int, b: int)
    requires
        0 <= a <= b <= s.len(),
    ensures
        ticks(s.take(a)) <= ticks(s.take(b)) <= ticks(s.take(a)) + (b - a),
    decreases b - a,
{
    if a < b {
        lemma_ticks_growth(s, a, b - 1);
        lemma_ticks_take_step(s, b - 1);
    }
}

proof fn lemma_run_generation(m: CacheMemory, s: Seq<WriterStep>)
    ensures
        run_steps(m, s).generation == (m.generation + ticks(s)) % 0x1_0000_0000,
        run_steps(m, s).slots.len() == m.slots.len(),
    decreases s.len(),
{
    if s.len() > 0 {
        lemma_run_generation(m, s.drop_last());
        let g = run_steps(m, s.drop_last()).generation;
        let t = ticks(s.drop_last());
        assert(((m.generation + t) % 0x1_0000_0000 + 1) % 0x1_0000_0000 == (m.generation + t + 1)
            % 0x1_0000_0000);
    }
}

proof fn lemma_run_concat(m: CacheMemory, x: Seq<WriterStep>, y: Seq<WriterStep>)
    ensures
        run_steps(m, x + y) == run_steps(run_steps(m, x), y),
    decreases y.len(),
{
    if y.len() == 0 {
        assert(x + y =~= x);
    } else {
        lemma_run_concat(m, x, y.drop_last());
        assert((x + y).drop_last() =~= x + y.drop_last());
    }
}

proof fn lemma_replace_ticks(fobs: Seq<u32>, t: int)
    requires
        0 <= t <= replace_steps(fobs).len(),
    ensures
        t == 0 ==> ticks(replace_steps(fobs).take(t)) == 0,
        0 < t < replace_steps(fobs).len() ==> ticks(replace_steps(fobs).take(t)) == 1,
        t == replace_steps(fobs).len() ==> ticks(replace_steps(fobs).take(t)) == 2,
        t < replace_steps(fobs).len() ==> (t == 0 <==> replace_steps(fobs)[t] is Begin),
    decreases t,
{
    let r = replace_steps(fobs);
    if t == 0 {
        assert(r.take(0) =~= Seq::<WriterStep>::empty());
    } else {
        lemma_replace_ticks(fobs, t - 1);
        lemma_ticks_take_step(r, t - 1);
    }
}

proof fn lemma_writer_ticks(lists: Seq<Seq<u32>>)
    ensures
        ticks(writer_steps(lists)) == 2 * lists.len(),
    decreases lists.len(),
{
    if lists.len() > 0 {
        lemma_writer_ticks(lists.drop_last());
        let r = replace_steps(lists.last());
        lemma_ticks_concat(writer_steps(lists.drop_last()), r);
        lemma_replace_ticks(lists.last(), r.len() as int);
        assert(r.take(r.len() as int) =~= r);
    }
}

/// Where the token is even, the writer is between replaces: the point ends
/// the first `k` replaces, and if the writer goes on, its next step is `Begin`.
proof fn lemma_even_point_is_boundary(lists: Seq<Seq<u32>>, a: int)
    requires
        0 <= a <= writer_steps(lists).len(),
        ticks(writer_steps(lists).take(a)) % 2 == 0,
    ensures
        a < writer_steps(lists).len() ==> writer_steps(lists)[a] is Begin,
        exists|k: int|
            0 <= k <= lists.len() && #[trigger] writer_steps(lists).take(a) == writer_steps(
                lists.take(k),
            ),
    decreases lists.len(),
{
    let w = writer_steps(lists);
    if lists.len() == 0 {
        assert(w.take(a) =~= writer_steps(lists.take(0)));
    } else {
        let prev = lists.drop_last();
        let wp = writer_steps(prev);
        let r = replace_steps(lists.last());
        assert(w == wp + r);
        if a <= wp.len() {
            assert(w.take(a) =~= wp.take(a));
            lemma_even_point_is_boundary(prev, a);
            let k = choose|k: int|
                0 <= k <= prev.len() && #[trigger] wp.take(a) == writer_steps(prev.take(k));
            assert(prev.take(k) =~= lists.take(k));
            if a < wp.len() {
                assert(w[a] == wp[a]);
            } else {
                lemma_replace_ticks(lists.last(), 0);
                assert(w[a] == r[0]);
            }
        } else {
            let t = a - wp.len();
            assert(w.take(a) =~= wp + r.take(t));
            lemma_ticks_concat(wp, r.take(t));
            lemma_writer_ticks(prev);
            lemma_replace_ticks(lists.last(), t);
            assert(t == r.len());
            assert(w.take(a) =~= w);
            assert(lists.take(lists.len() as int) =~= lists);
        }
    }
}

proof fn lemma_replace_run(m: CacheMemory, fobs: Seq<u32>)
    requires
        m.slots.len() == MAX_FOBS,
    ensures
        cache_contents(run_steps(m, replace_steps(fobs))) == replaced_contents(fobs),
        run_steps(m, replace_steps(fobs)).slots.len() == MAX_FOBS,
{
    let n = if fobs.len() < MAX_FOBS {
        fobs.len()
    } else {
        MAX_FOBS as nat
    };
    let stores = Seq::new(n, |i: int| WriterStep::Store(i, fobs[i]));
    let head = seq![WriterStep::Begin];
    let tail = seq![WriterStep::SetCount(n), WriterStep::End];
    assert(replace_steps(fobs) == head + stores + tail);
    lemma_run_concat(m, head + stores, tail);
    lemma_run_concat(m, head, stores);
    let m1 = run_steps(m, head);
    assert(head.drop_last() =~= Seq::<WriterStep>::empty());
    assert(run_steps(m, head.drop_last()) == m);
    assert(m1 == apply_step(m, WriterStep::Begin));
    assert(m1.slots == m.slots);
    lemma_stores(m1, fobs, n as int);
    let m2 = run_steps(m1, stores);
    assert(stores.take(n as int) =~= stores);
    let one = seq![WriterStep::SetCount(n)];
    assert(tail.drop_last() =~= one);
    assert(one.drop_last() =~= Seq::<WriterStep>::empty());
    assert(run_steps(m2, one.drop_last()) == m2);
    assert(run_steps(m2, one) == apply_step(m2, WriterStep::SetCount(n)));
    let m3 = run_steps(m2, tail);
    assert(m3 == apply_step(run_steps(m2, one), WriterStep::End));
    assert(m3.slots == m2.slots && m3.count == n);
    assert(cache_contents(m3) =~= replaced_contents(fobs));
}

proof fn lemma_stores(m: CacheMemory, fobs: Seq<u32>, j: int)
    requires
        m.slots.len() == MAX_FOBS,
        0 <= j <= fobs.len(),
        j <= MAX_FOBS,
    ensures
        ({
            let stores = Seq::new(
                (if fobs.len() < MAX_FOBS {
                    fobs.len()
                } else {
                    MAX_FOBS as nat
                }),
                |i: int| WriterStep::Store(i, fobs[i]),
            );
            let r = run_steps(m, stores.take(j));
            &&& r.slots.len() == MAX_FOBS
            &&& r.count == m.count
            &&& forall|i: int| 0 <= i < j ==> r.slots[i] == fobs[i]
        }),
    decreases j,
{
    let stores = Seq::new(
        (if fobs.len() < MAX_FOBS {
            fobs.len()
        } else {
            MAX_FOBS as nat
        }),
        |i: int| WriterStep::Store(i, fobs[i]),
    );
    if j == 0 {
        assert(stores.take(0) =~= Seq::<WriterStep>::empty());
    } else {
        lemma_stores(m, fobs, j - 1);
        assert(stores.take(j).drop_last() =~= stores.take(j - 1));
    }
}

proof fn lemma_boundary_contents(m0: CacheMemory, lists: Seq<Seq<u32>>, k: int)
    requires
        m0.slots.len() == MAX_FOBS,
        0 <= k <= lists.len(),
    ensures
        k == 0 ==> run_steps(m0, writer_steps(lists.take(k))) == m0,
        k > 0 ==> cache_contents(run_steps(m0, writer_steps(lists.take(k)))) == replaced_contents(
            lists[k - 1],
        ),
        run_steps(m0, writer_steps(lists.take(k))).slots.len() == MAX_FOBS,
{
    if k == 0 {
        assert(lists.take(0) =~= Seq::<Seq<u32>>::empty());
    } else {
        let lk = lists.take(k);
        assert(lk.drop_last() =~= lists.take(k - 1));
        assert(writer_steps(lk) == writer_steps(lists.take(k - 1)) + replace_steps(lists[k - 1]));
        lemma_run_concat(m0, writer_steps(lists.take(k - 1)), replace_steps(lists[k - 1]));
        lemma_run_generation(m0, writer_steps(lists.take(k - 1)));
        lemma_replace_run(run_steps(m0, writer_steps(lists.take(k - 1))), lists[k - 1]);
    }
}

/// Seqlock consistency. Let the writer replace the list with each of `lists`
/// in turn, starting from a stable memory `m0`, and let a reader read the
/// token after the first `a` writer steps and again after the first `b`. If
/// the reads are consistent in the sense `check_fob` accepts a scan
/// (`scan_consistent`: the same even token), and the writer made fewer than 2^32
/// steps in between (so the token cannot have wrapped around), then no writer
/// step happened between them: every slot and count the reader read in
/// between belongs to one memory, and that memory holds the initial set or
/// exactly the set of a fully completed replace.
pub proof fn lemma_consistent_read_sees_completed_replace(
    m0: CacheMemory,
    lists: Seq<Seq<u32>>,
    a: int,
    b: int,
)
    requires
        m0.generation % 2 == 0,
        m0.slots.len() == MAX_FOBS,
        0 <= a <= b <= writer_steps(lists).len(),
        b - a < 0x1_0000_0000,
        read_consistent(
            run_steps(m0, writer_steps(lists).take(a)).generation,
            run_steps(m0, writer_steps(lists).take(b)).generation,
        ),
    ensures
        a == b,
        cache_contents(run_steps(m0, writer_steps(lists).take(a))) == cache_contents(m0) || exists|
            k: int,
        |
            0 < k <= lists.len() && cache_contents(run_steps(m0, writer_steps(lists).take(a)))
                == replaced_contents(#[trigger] lists[k - 1]),
{
    let w = writer_steps(lists);
    lemma_run_generation(m0, w.take(a));
    lemma_run_generation(m0, w.take(b));
    let ta = ticks(w.take(a));
    let tb = ticks(w.take(b));
    assert(ta % 2 == 0) by {
        assert((m0.generation + ta) % 0x1_0000_0000 % 2 == (m0.generation + ta) % 2);
    }
    lemma_even_point_is_boundary(lists, a);
    if a < b {
        lemma_ticks_take_step(w, a);
        lemma_ticks_growth(w, a + 1, b);
        assert(ta + 1 <= tb <= ta + (b - a));
        assert((m0.generation + ta) % 0x1_0000_0000 != (m0.generation + tb) % 0x1_0000_0000);
    }
    let k = choose|k: int| 0 <= k <= lists.len() && #[trigger] w.take(a) == writer_steps(lists.take(k));
    lemma_boundary_contents(m0, lists, k);
}

} // verus!
