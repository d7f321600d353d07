//! The event delivery buffer: a fixed ring of access events with
//! peek-without-removal and removal only on acknowledgment.
use vstd::prelude::*;

use crate::MAX_EVENTS;

verus! {

/// One access attempt, reported to the server later.
#[derive(Debug, Clone, Copy, PartialEq, Eq, Structural, Default)]
pub struct AccessEvent {
    pub fob: u32,
    pub allowed: bool,
}

/// Number of events between `tail` and `head` of a ring of `MAX_EVENTS` slots.
pub open spec fn ring_len(head: int, tail: int) -> int {
    if head >= tail {
        head - tail
    } else {
        MAX_EVENTS - tail + head
    }
}

/// The events from `tail` up to `head`, oldest first.
pub open spec fn pending_of(slots: Seq<AccessEvent>, head: int, tail: int) -> Seq<AccessEvent> {
    Seq::new(ring_len(head, tail) as nat, |i: int| slots[(tail + i) % (MAX_EVENTS as int)])
}

/// The state of an event ring: its slots, next write position and oldest
/// unacknowledged position.
pub struct Ring {
    pub slots: Seq<AccessEvent>,
    pub head: int,
    pub tail: int,
}

pub open spec fn ring_ok(r: Ring) -> bool {
    &&& r.slots.len() == MAX_EVENTS
    &&& 0 <= r.head < MAX_EVENTS
    &&& 0 <= r.tail < MAX_EVENTS
}

/// The pending events of a ring, oldest first.
pub open spec fn ring_pending(r: Ring) -> Seq<AccessEvent> {
    pending_of(r.slots, r.head, r.tail)
}

/// The ring after `push(e)`: when advancing the head would meet the tail, the
/// tail first moves past the oldest event.
pub open spec fn ring_push(r: Ring, e: AccessEvent) -> Ring {
    let next = (r.head + 1) % (MAX_EVENTS as int);
    Ring {
        slots: r.slots.update(r.head, e),
        head: next,
        tail: if next == r.tail {
            (r.tail + 1) % (MAX_EVENTS as int)
        } else {
            r.tail
        },
    }
}

/// The ring after pushing each of `es` in order.
pub open spec fn ring_push_all(r: Ring, es: Seq<AccessEvent>) -> Ring
    decreases es.len(),
{
    if es.len() == 0 {
        r
    } else {
        ring_push(ring_push_all(r, es.drop_last()), es.last())
    }
}

/// The ring after `commit(count, snapshot)`.
pub open spec fn ring_commit(r: Ring, count: int, snapshot: int) -> Ring {
    Ring { slots: r.slots, head: r.head, tail: commit_target(r.tail, snapshot, count) }
}

/// The last `k` elements of `s` (all of them when it is shorter).
pub open spec fn keep_last<A>(s: Seq<A>, k: nat) -> Seq<A> {
    if s.len() <= k {
        s
    } else {
        s.skip(s.len() - k)
    }
}

/// Where `commit` leaves the tail: at `snapshot + count` when the tail has not
/// moved since the snapshot, or when that position is less than half the ring
/// ahead of the moved tail; otherwise where it is.
pub open spec fn commit_target(tail: int, snapshot: int, count: int) -> int {
    let new_tail = (snapshot + count) % (MAX_EVENTS as int);
    if tail == snapshot {
        new_tail
    } else if ring_len(new_tail, tail) < MAX_EVENTS / 2 {
        new_tail
    } else {
        tail
    }
}

/// Fixed-capacity ring of access events. `head` is the next write position,
/// `tail` the oldest unacknowledged event; one slot always stays free, so at
/// most `MAX_EVENTS - 1` events are pending.
pub struct EventBuffer {
    events: Vec<AccessEvent>,
    head: usize,
    tail: usize,
}

impl View for EventBuffer {
    type V = Seq<AccessEvent>;

    /// The pending events, oldest first.
    open spec fn view(&self) -> Seq<AccessEvent> {
        ring_pending(self.ring())
    }
}

/// After one push the pending events gain `e` at the end, losing the oldest
/// when the ring was full.
pub proof fn lemma_ring_push(r: Ring, e: AccessEvent)
    requires
        ring_ok(r),
    ensures
        ring_ok(ring_push(r, e)),
        ring_pending(r).len() < MAX_EVENTS,
        ring_pending(r).len() < MAX_EVENTS - 1 ==> ring_pending(ring_push(r, e)) == ring_pending(
            r,
        ).push(e),
        ring_pending(r).len() == MAX_EVENTS - 1 ==> ring_pending(ring_push(r, e)) == ring_pending(
            r,
        ).skip(1).push(e),
        ring_pending(r).len() < MAX_EVENTS - 1 ==> ring_push(r, e).tail == r.tail,
{
    let n = ring_push(r, e);
    if ring_pending(r).len() < MAX_EVENTS - 1 {
        assert(ring_pending(n) =~= ring_pending(r).push(e));
    } else {
        assert(ring_pending(n) =~= ring_pending(r).skip(1).push(e));
    }
}

impl EventBuffer {
    /// The ring this buffer holds.
    pub closed spec fn ring(&self) -> Ring {
        Ring { slots: self.events@, head: self.head as int, tail: self.tail as int }
    }

    pub open spec fn wf(&self) -> bool {
        ring_ok(self.ring())
    }

    /// An empty buffer.
    pub fn new() -> (r: EventBuffer)
        ensures
            r.wf(),
            r@ == Seq::<AccessEvent>::empty(),
            r.ring().head == 0,
            r.ring().tail == 0,
    {
        let mut events: Vec<AccessEvent> = Vec::new();
        let mut i: usize = 0;
        while i < MAX_EVENTS
            invariant
                i <= MAX_EVENTS,
                events@.len() == i,
            decreases MAX_EVENTS - i,
        {
            events.push(AccessEvent { fob: 0, allowed: false });
            i = i + 1;
        }
        let r = EventBuffer { events, head: 0, tail: 0 };
        assert(r@ =~= Seq::<AccessEvent>::empty());
        r
    }

    fn is_full(&self) -> (r: bool)
        requires
            self.wf(),
        ensures
            r == ((self.head + 1) % (MAX_EVENTS as int) == self.tail),
    {
        (self.head + 1) % MAX_EVENTS == self.tail
    }

    /// Number of pending events.
    pub fn len(&self) -> (r: usize)
        requires
            self.wf(),
        ensures
            r == self@.len(),
            r < MAX_EVENTS,
    {
        if self.head >= self.tail {
            self.head - self.tail
        } else {
            MAX_EVENTS - self.tail + self.head
        }
    }

    /// No event is pending.
    pub fn is_empty(&self) -> (r: bool)
        requires
            self.wf(),
        ensures
            r == (self@.len() == 0),
    {
        self.len() == 0
    }

    /// The raw (head, tail) positions.
    pub fn state(&self) -> (r: (usize, usize))
        ensures
            r.0 == self.ring().head,
            r.1 == self.ring().tail,
    {
        (self.head, self.tail)
    }

    /// Appends an event. When the ring is full the oldest pending event is
    /// discarded first.
    pub fn push(&mut self, event: AccessEvent)
        requires
            old(self).wf(),
        ensures
            final(self).wf(),
            final(self).ring() == ring_push(old(self).ring(), event),
            old(self)@.len() < MAX_EVENTS - 1 ==> final(self)@ == old(self)@.push(event),
            old(self)@.len() == MAX_EVENTS - 1 ==> final(self)@ == old(self)@.skip(1).push(event),
    {
        proof {
            lemma_ring_push(self.ring(), event);
        }
        if self.is_full() {
            self.tail = (self.tail + 1) % MAX_EVENTS;
        }
        let head = self.head;
        self.events.set(head, event);
        self.head = (head + 1) % MAX_EVENTS;
        assert(self.ring() == ring_push(old(self).ring(), event));
    }

    /// Copies the pending events, oldest first, into `out` without removing
    /// them. Returns how many were copied and the tail position to hand to
    /// `commit`.
    pub fn peek(&self, out: &mut [AccessEvent; MAX_EVENTS]) -> (r: (usize, usize))
        requires
            self.wf(),
        ensures
            r.0 == self@.len(),
            r.1 == self.ring().tail,
            final(out)@.subrange(0, r.0 as int) == self@,
            forall|j: int| 0 <= j < r.0 ==> #[trigger] final(out)@[j] == self@[j],
            final(out)@.subrange(r.0 as int, MAX_EVENTS as int) == old(out)@.subrange(
                r.0 as int,
                MAX_EVENTS as int,
            ),
    {
        let tail = self.tail;
        let head = self.head;
        let len = self.len();
        let mut count: usize = 0;
        let mut idx = tail;
        while idx != head && count < MAX_EVENTS
            invariant
                self.wf(),
                tail == self.tail,
                head == self.head,
                len == self@.len(),
                count <= len,
                idx == (tail + count) % (MAX_EVENTS as int),
                count < len ==> idx != head,
                count == len ==> idx == head,
                out@.len() == MAX_EVENTS,
                forall|j: int| 0 <= j < count ==> out@[j] == self@[j],
                forall|j: int| count <= j < MAX_EVENTS ==> out@[j] == old(out)@[j],
            decreases len - count,
        {
            out[count] = self.events[idx];
            count = count + 1;
            idx = (idx + 1) % MAX_EVENTS;
        }
        assert(out@.subrange(0, count as int) =~= self@);
        assert(out@.subrange(count as int, MAX_EVENTS as int) =~= old(out)@.subrange(
            count as int,
            MAX_EVENTS as int,
        ));
        (count, tail)
    }

    /// Removes `count` events after the server acknowledged them, given the
    /// tail position `peek` returned. When overflow moved the tail meanwhile,
    /// the tail goes to the intended position only if that lies less than half
    /// the ring ahead of it; otherwise overflow already discarded those events
    /// and nothing changes.
    pub fn commit(&mut self, count: usize, expected_tail: usize)
        requires
            old(self).wf(),
        ensures
            final(self).wf(),
            final(self).ring() == ring_commit(old(self).ring(), count as int, expected_tail as int),
            expected_tail == old(self).ring().tail && count <= old(self)@.len() ==> final(self)@
                == old(self)@.skip(count as int),
    {
        let new_tail = (expected_tail % MAX_EVENTS + count % MAX_EVENTS) % MAX_EVENTS;
        assert(new_tail == (expected_tail + count) % 20) by (nonlinear_arith)
            requires
                new_tail == (expected_tail % 20 + count % 20) % 20,
        ;
        if self.tail == expected_tail {
            self.tail = new_tail;
        } else {
            let distance_forward = if new_tail >= self.tail {
                new_tail - self.tail
            } else {
                MAX_EVENTS - self.tail + new_tail
            };
            if distance_forward < MAX_EVENTS / 2 {
                self.tail = new_tail;
            }
        }
        proof {
            if expected_tail == old(self).ring().tail && count <= old(self)@.len() {
                lemma_advance_tail(old(self).ring(), new_tail as int);
            }
        }
    }
}

/// Moving the tail forward within the pending range drops exactly the events it passes.
pub proof fn lemma_advance_tail(r: Ring, t2: int)
    requires
        ring_ok(r),
        0 <= t2 < MAX_EVENTS,
        ring_len(t2, r.tail) <= ring_pending(r).len(),
    ensures
        ring_pending(Ring { slots: r.slots, head: r.head, tail: t2 }) == ring_pending(r).skip(
            ring_len(t2, r.tail),
        ),
{
    let r2 = Ring { slots: r.slots, head: r.head, tail: t2 };
    assert(ring_pending(r2) =~= ring_pending(r).skip(ring_len(t2, r.tail)));
}

} // verus!

verus! {

proof fn lemma_mod_succ(a: int)
    requires
        a >= 0,
    ensures
        ((a % 20) + 1) % 20 == (a + 1) % 20,
        ((a % 20) + 2) % 20 == (a + 2) % 20,
{
}

proof fn lemma_ring_push_all_positions(r: Ring, es: Seq<AccessEvent>)
    requires
        ring_ok(r),
    ensures
        ring_ok(ring_push_all(r, es)),
        ring_len(ring_push_all(r, es).head, ring_push_all(r, es).tail) == if ring_len(r.head, r.tail)
            + es.len() <= MAX_EVENTS - 1 {
            ring_len(r.head, r.tail) + es.len()
        } else {
            MAX_EVENTS - 1
        },
        ring_push_all(r, es).head == (r.head + es.len()) % (MAX_EVENTS as int),
        ring_push_all(r, es).tail == if ring_len(r.head, r.tail) + es.len() <= MAX_EVENTS - 1 {
            r.tail
        } else {
            (r.head + es.len() + 1) % (MAX_EVENTS as int)
        },
    decreases es.len(),
{
    if es.len() > 0 {
        let front = es.drop_last();
        lemma_ring_push_all_positions(r, front);
        let mid = ring_push_all(r, front);
        let m = es.len() as int;
        let total = ring_len(r.head, r.tail) + m;
        let lm = ring_len(mid.head, mid.tail);
        assert(ring_push_all(r, es) == ring_push(mid, es.last()));
        lemma_mod_succ(r.head + m - 1);
        assert((mid.head + 1) % 20 == (r.head + m) % 20);
        assert(lm == 19 <==> (mid.head + 1) % 20 == mid.tail);
        if total - 1 < 19 {
            assert(lm == total - 1);
        } else if total - 1 == 19 {
            assert(mid.tail == r.tail);
            assert(lm == 19);
            assert(((mid.head + 1) % 20 + 1) % 20 == (r.head + m + 1) % 20) by {
                lemma_mod_succ(r.head + m);
            }
        } else {
            assert(mid.tail == (r.head + m) % 20);
            lemma_mod_succ(r.head + m);
        }
    }
}

/// After any number of pushes the ring holds the newest `MAX_EVENTS - 1` of its
/// earlier pending events followed by the pushed ones, and its positions
/// advanced accordingly.
pub proof fn lemma_ring_push_all(r: Ring, es: Seq<AccessEvent>)
    requires
        ring_ok(r),
    ensures
        ring_ok(ring_push_all(r, es)),
        ring_pending(ring_push_all(r, es)) == keep_last(
            ring_pending(r) + es,
            (MAX_EVENTS - 1) as nat,
        ),
        ring_push_all(r, es).head == (r.head + es.len()) % (MAX_EVENTS as int),
        ring_push_all(r, es).tail == if ring_pending(r).len() + es.len() <= MAX_EVENTS - 1 {
            r.tail
        } else {
            (r.head + es.len() + 1) % (MAX_EVENTS as int)
        },
    decreases es.len(),
{
    lemma_ring_push_all_positions(r, es);
    lemma_ring_push(r, AccessEvent { fob: 0, allowed: false });
    let k = (MAX_EVENTS - 1) as nat;
    if es.len() == 0 {
        assert(ring_pending(r) + es =~= ring_pending(r));
    } else {
        let front = es.drop_last();
        let e = es.last();
        lemma_ring_push_all(r, front);
        let mid = ring_push_all(r, front);
        lemma_ring_push(mid, e);
        let all = ring_pending(r) + es;
        let before = ring_pending(r) + front;
        assert(all =~= before.push(e));
        let pm = ring_pending(mid);
        assert(pm == keep_last(before, k));
        if before.len() < k {
            assert(pm == before);
            assert(ring_pending(ring_push(mid, e)) == before.push(e));
            assert(keep_last(all, k) =~= before.push(e));
        } else {
            assert(pm.len() == k);
            assert(ring_pending(ring_push(mid, e)) == pm.skip(1).push(e));
            assert(keep_last(all, k) =~= pm.skip(1).push(e));
        }
    }
}

/// Pushes that stay within the capacity are all pending afterwards, in push
/// order and unchanged, behind what was pending before.
pub proof fn lemma_pushes_within_capacity_kept_in_order(r: Ring, es: Seq<AccessEvent>)
    requires
        ring_ok(r),
        ring_pending(r).len() + es.len() <= MAX_EVENTS - 1,
    ensures
        ring_pending(ring_push_all(r, es)) == ring_pending(r) + es,
{
    lemma_ring_push_all(r, es);
}

/// Pushing at least `MAX_EVENTS - 1` events leaves exactly `MAX_EVENTS - 1`
/// pending: the most recently pushed ones, oldest discarded.
pub proof fn lemma_overflow_keeps_newest(r: Ring, es: Seq<AccessEvent>)
    requires
        ring_ok(r),
        es.len() >= MAX_EVENTS - 1,
    ensures
        ring_pending(ring_push_all(r, es)).len() == MAX_EVENTS - 1,
        ring_pending(ring_push_all(r, es)) == es.skip(es.len() - (MAX_EVENTS - 1)),
{
    lemma_ring_push_all(r, es);
    let all = ring_pending(r) + es;
    assert(all.skip(all.len() - (MAX_EVENTS - 1)) =~= es.skip(es.len() - (MAX_EVENTS - 1)));
}

/// Peek, then pushes that do not overflow, then commit of up to the peeked
/// count with the peeked tail: exactly `count` events leave, the oldest ones.
pub proof fn lemma_commit_after_peek_removes_count(
    r: Ring,
    es: Seq<AccessEvent>,
    count: int,
)
    requires
        ring_ok(r),
        0 <= count <= ring_pending(r).len(),
        ring_pending(r).len() + es.len() <= MAX_EVENTS - 1,
    ensures
        ring_pending(ring_commit(ring_push_all(r, es), count, r.tail)) == (ring_pending(r)
            + es).skip(count),
        ring_pending(ring_commit(ring_push_all(r, es), count, r.tail)).len() == ring_pending(
            ring_push_all(r, es),
        ).len() - count,
{
    lemma_ring_push_all(r, es);
    let r2 = ring_push_all(r, es);
    let t2 = (r.tail + count) % (MAX_EVENTS as int);
    assert(ring_len(t2, r2.tail) == count);
    lemma_advance_tail(r2, t2);
}

/// Peek of all pending events, then pushes (overflowing or not) that do not
/// wrap the ring a second time, then commit with the peeked count and tail:
/// what remains is the newest part of what was pending, and no event pushed
/// after the peek that was still pending is removed.
pub proof fn lemma_stale_commit_keeps_unacknowledged(r: Ring, es: Seq<AccessEvent>)
    requires
        ring_ok(r),
        es.len() < MAX_EVENTS + MAX_EVENTS / 2,
        ring_pending(r).len() + es.len() <= 2 * (MAX_EVENTS - 1),
    ensures
        ({
            let before = ring_pending(ring_push_all(r, es));
            let after = ring_pending(
                ring_commit(ring_push_all(r, es), ring_pending(r).len() as int, r.tail),
            );
            &&& after.len() <= MAX_EVENTS - 1
            &&& after.len() <= before.len()
            &&& after == before.skip(before.len() - after.len())
            &&& after.len() >= if es.len() < before.len() {
                es.len() as int
            } else {
                before.len() as int
            }
        }),
{
    lemma_ring_push_all(r, es);
    let len = ring_pending(r).len() as int;
    let r2 = ring_push_all(r, es);
    let before = ring_pending(r2);
    assert((r.tail + len) % (MAX_EVENTS as int) == r.head);
    let t3 = commit_target(r2.tail, r.tail, len);
    let r3 = ring_commit(r2, len, r.tail);
    if t3 != r2.tail {
        assert(ring_len(t3, r2.tail) <= before.len());
        lemma_advance_tail(r2, t3);
    } else {
        assert(r3 == r2);
    }
}

} // verus!
