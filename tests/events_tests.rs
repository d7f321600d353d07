use access_controller::events::{AccessEvent, EventBuffer};
use access_controller::MAX_EVENTS;

fn ev(fob: u32, allowed: bool) -> AccessEvent {
    AccessEvent { fob, allowed }
}

fn peek(buffer: &EventBuffer) -> (Vec<AccessEvent>, usize, usize) {
    let mut out = [AccessEvent::default(); MAX_EVENTS];
    let (count, tail) = buffer.peek(&mut out);
    (out[..count].to_vec(), count, tail)
}

#[test]
fn test_buffer_new_is_empty() {
    let buffer = EventBuffer::new();
    assert!(buffer.is_empty());
    assert_eq!(buffer.len(), 0);
}

#[test]
fn test_buffer_push_single() {
    let mut buffer = EventBuffer::new();
    buffer.push(ev(12345, true));
    assert_eq!(buffer.len(), 1);
    assert!(!buffer.is_empty());
}

#[test]
fn test_buffer_push_multiple() {
    let mut buffer = EventBuffer::new();
    for i in 0..5 {
        buffer.push(ev(i, i % 2 == 0));
    }
    assert_eq!(buffer.len(), 5);
}

#[test]
fn test_buffer_push_to_max_minus_one() {
    let mut buffer = EventBuffer::new();
    for i in 0..(MAX_EVENTS - 1) {
        buffer.push(ev(i as u32, true));
    }
    assert_eq!(buffer.len(), MAX_EVENTS - 1);
}

#[test]
fn test_peek_empty_buffer() {
    let buffer = EventBuffer::new();
    let (events, count, _tail) = peek(&buffer);
    assert_eq!(count, 0);
    assert!(events.is_empty());
}

#[test]
fn test_peek_single_event() {
    let mut buffer = EventBuffer::new();
    buffer.push(ev(12345, true));
    let (events, count, tail) = peek(&buffer);
    assert_eq!(count, 1);
    assert_eq!(events.len(), 1);
    assert_eq!(events[0].fob, 12345);
    assert!(events[0].allowed);
    assert_eq!(tail, 0);
    assert_eq!(buffer.len(), 1);
}

#[test]
fn test_peek_multiple_events() {
    let mut buffer = EventBuffer::new();
    for i in 0..5 {
        buffer.push(ev(i * 100, i % 2 == 0));
    }
    let (events, count, _tail) = peek(&buffer);
    assert_eq!(count, 5);
    for i in 0..5 {
        assert_eq!(events[i].fob, i as u32 * 100);
        assert_eq!(events[i].allowed, i % 2 == 0);
    }
    assert_eq!(buffer.len(), 5);
}

#[test]
fn test_peek_preserves_order() {
    let mut buffer = EventBuffer::new();
    buffer.push(ev(1, true));
    buffer.push(ev(2, false));
    buffer.push(ev(3, true));
    let (events, _, _) = peek(&buffer);
    assert_eq!(events[0].fob, 1);
    assert_eq!(events[1].fob, 2);
    assert_eq!(events[2].fob, 3);
}

#[test]
fn test_commit_all_events() {
    let mut buffer = EventBuffer::new();
    for i in 0..5 {
        buffer.push(ev(i, true));
    }
    let (_, count, tail) = peek(&buffer);
    buffer.commit(count, tail);
    assert!(buffer.is_empty());
    assert_eq!(buffer.len(), 0);
}

#[test]
fn test_commit_partial_events() {
    let mut buffer = EventBuffer::new();
    for i in 0..5 {
        buffer.push(ev(i, true));
    }
    let (_, _, tail) = peek(&buffer);
    buffer.commit(3, tail);
    assert_eq!(buffer.len(), 2);
    let (events, count, _) = peek(&buffer);
    assert_eq!(count, 2);
    assert_eq!(events[0].fob, 3);
    assert_eq!(events[1].fob, 4);
}

#[test]
fn test_commit_zero_events() {
    let mut buffer = EventBuffer::new();
    buffer.push(ev(1, true));
    let (_, _, tail) = peek(&buffer);
    buffer.commit(0, tail);
    assert_eq!(buffer.len(), 1);
}

#[test]
fn test_commit_with_stale_tail() {
    let mut buffer = EventBuffer::new();
    for i in 0..5 {
        buffer.push(ev(i, true));
    }
    let (_, count, old_tail) = peek(&buffer);
    assert_eq!(count, 5);
    buffer.commit(count, old_tail);
    assert!(buffer.is_empty());
}

#[test]
fn test_overflow_discards_oldest() {
    let mut buffer = EventBuffer::new();
    for i in 0..(MAX_EVENTS - 1) {
        buffer.push(ev(i as u32, true));
    }
    assert_eq!(buffer.len(), MAX_EVENTS - 1);
    buffer.push(ev(999, false));
    assert_eq!(buffer.len(), MAX_EVENTS - 1);
    let (events, _, _) = peek(&buffer);
    assert_eq!(events[0].fob, 1);
    assert_eq!(events[events.len() - 1].fob, 999);
}

#[test]
fn test_overflow_multiple_times() {
    let mut buffer = EventBuffer::new();
    for i in 0..(2 * MAX_EVENTS) {
        buffer.push(ev(i as u32, true));
    }
    assert_eq!(buffer.len(), MAX_EVENTS - 1);
    let (events, _, _) = peek(&buffer);
    let expected_first = (2 * MAX_EVENTS) - (MAX_EVENTS - 1);
    assert_eq!(events[0].fob, expected_first as u32);
}

#[test]
fn test_wraparound_basic() {
    let mut buffer = EventBuffer::new();
    for round in 0..3 {
        for i in 0..10 {
            buffer.push(ev((round * 100 + i) as u32, true));
        }
        let (events, count, tail) = peek(&buffer);
        assert_eq!(count, 10);
        assert_eq!(events[0].fob, (round * 100) as u32);
        buffer.commit(count, tail);
        assert!(buffer.is_empty());
    }
}

#[test]
fn test_wraparound_with_partial_commit() {
    let mut buffer = EventBuffer::new();
    for i in 0..15 {
        buffer.push(ev(i, true));
    }
    let (_, _, tail) = peek(&buffer);
    buffer.commit(10, tail);
    assert_eq!(buffer.len(), 5);
    for i in 15..25 {
        buffer.push(ev(i, true));
    }
    assert_eq!(buffer.len(), 15);
    let (events, _, _) = peek(&buffer);
    assert_eq!(events[0].fob, 10);
    assert_eq!(events[14].fob, 24);
}

#[test]
fn test_head_tail_positions_after_operations() {
    let mut buffer = EventBuffer::new();
    for i in 0..5 {
        buffer.push(ev(i, true));
    }
    let (head, tail) = buffer.state();
    assert_eq!(tail, 0);
    assert_eq!(head, 5);
    buffer.commit(3, tail);
    let (head2, tail2) = buffer.state();
    assert_eq!(tail2, 3);
    assert_eq!(head2, 5);
    for i in 5..10 {
        buffer.push(ev(i, true));
    }
    let (head3, tail3) = buffer.state();
    assert_eq!(tail3, 3);
    assert_eq!(head3, 10);
}

#[test]
fn test_len_calculation_no_wrap() {
    let mut buffer = EventBuffer::new();
    buffer.push(ev(1, true));
    assert_eq!(buffer.len(), 1);
    buffer.push(ev(2, true));
    assert_eq!(buffer.len(), 2);
}

#[test]
fn test_len_calculation_with_wrap() {
    let mut buffer = EventBuffer::new();
    for i in 0..15 {
        buffer.push(ev(i, true));
    }
    let (_, count, tail) = peek(&buffer);
    buffer.commit(count, tail);
    for i in 0..10 {
        buffer.push(ev(100 + i, true));
    }
    assert_eq!(buffer.len(), 10);
}

#[test]
fn test_commit_after_overflow_during_sync() {
    let mut buffer = EventBuffer::new();
    for i in 0..10 {
        buffer.push(ev(i, true));
    }
    let (_, peeked_count, peeked_tail) = peek(&buffer);
    assert_eq!(peeked_count, 10);
    assert_eq!(peeked_tail, 0);
    for i in 100..(100 + MAX_EVENTS) {
        buffer.push(ev(i as u32, true));
    }
    let (_, _, new_tail) = peek(&buffer);
    assert_ne!(new_tail, peeked_tail);
    buffer.commit(peeked_count, peeked_tail);
    let len = buffer.len();
    assert!(len <= MAX_EVENTS - 1);
}

#[test]
fn test_is_full_boundary() {
    let mut buffer = EventBuffer::new();
    for i in 0..(MAX_EVENTS - 2) {
        buffer.push(ev(i as u32, true));
    }
    assert_eq!(buffer.len(), MAX_EVENTS - 2);
    buffer.push(ev(998, true));
    assert_eq!(buffer.len(), MAX_EVENTS - 1);
    buffer.push(ev(999, true));
    assert_eq!(buffer.len(), MAX_EVENTS - 1);
}

#[test]
fn test_sync_pattern_success() {
    let mut buffer = EventBuffer::new();
    buffer.push(ev(1, true));
    buffer.push(ev(2, false));
    let (events, count, tail) = peek(&buffer);
    assert_eq!(count, 2);
    buffer.commit(count, tail);
    assert!(buffer.is_empty());
    buffer.push(ev(3, true));
    assert_eq!(buffer.len(), 1);
    let (events2, _, _) = peek(&buffer);
    assert_eq!(events2[0].fob, 3);
    assert_eq!(events[0].fob, 1);
    assert_eq!(events[1].fob, 2);
}

#[test]
fn test_sync_pattern_failure() {
    let mut buffer = EventBuffer::new();
    buffer.push(ev(1, true));
    buffer.push(ev(2, false));
    let (events, count, _tail) = peek(&buffer);
    assert_eq!(count, 2);
    assert_eq!(buffer.len(), 2);
    let (events2, count2, tail2) = peek(&buffer);
    assert_eq!(count2, 2);
    assert_eq!(events2[0].fob, events[0].fob);
    buffer.commit(count2, tail2);
    assert!(buffer.is_empty());
}

#[test]
fn test_sync_pattern_partial_with_new_events() {
    let mut buffer = EventBuffer::new();
    buffer.push(ev(1, true));
    buffer.push(ev(2, true));
    let (_, count, tail) = peek(&buffer);
    buffer.push(ev(3, true));
    buffer.commit(count, tail);
    assert_eq!(buffer.len(), 1);
    let (events, _, _) = peek(&buffer);
    assert_eq!(events[0].fob, 3);
}

#[test]
fn pushes_within_capacity_come_back_in_order() {
    let mut buffer = EventBuffer::new();
    let pushed: Vec<AccessEvent> = (0..(MAX_EVENTS as u32 - 1)).map(|i| ev(1000 + i, i % 3 == 0)).collect();
    for e in &pushed {
        buffer.push(*e);
    }
    let (events, count, _) = peek(&buffer);
    assert_eq!(count, MAX_EVENTS - 1);
    assert_eq!(events, pushed);
}

#[test]
fn commit_without_overflow_removes_exactly_count() {
    let mut buffer = EventBuffer::new();
    for i in 0..6 {
        buffer.push(ev(i, true));
    }
    let (_, _, tail) = peek(&buffer);
    buffer.push(ev(50, false));
    buffer.push(ev(51, false));
    let before = buffer.len();
    buffer.commit(4, tail);
    assert_eq!(buffer.len(), before - 4);
    let (events, _, _) = peek(&buffer);
    let fobs: Vec<u32> = events.iter().map(|e| e.fob).collect();
    assert_eq!(fobs, vec![4, 5, 50, 51]);
}

#[test]
fn overflow_of_exactly_capacity_keeps_newest() {
    let mut buffer = EventBuffer::new();
    for i in 0..(MAX_EVENTS as u32) {
        buffer.push(ev(i, true));
    }
    assert_eq!(buffer.len(), MAX_EVENTS - 1);
    let (events, _, _) = peek(&buffer);
    let fobs: Vec<u32> = events.iter().map(|e| e.fob).collect();
    let expected: Vec<u32> = (1..(MAX_EVENTS as u32)).collect();
    assert_eq!(fobs, expected);
}

#[test]
fn stale_commit_after_partial_overflow_keeps_new_events() {
    let mut buffer = EventBuffer::new();
    for i in 0..10 {
        buffer.push(ev(i, true));
    }
    let (_, count, tail) = peek(&buffer);
    for i in 0..12 {
        buffer.push(ev(100 + i, true));
    }
    buffer.commit(count, tail);
    let (events, _, _) = peek(&buffer);
    let fobs: Vec<u32> = events.iter().map(|e| e.fob).collect();
    let expected: Vec<u32> = (100..112).collect();
    assert_eq!(fobs, expected);
}

#[test]
fn stale_commit_after_full_overflow_is_a_no_op() {
    let mut buffer = EventBuffer::new();
    for i in 0..10 {
        buffer.push(ev(i, true));
    }
    let (_, count, tail) = peek(&buffer);
    for i in 0..(MAX_EVENTS as u32) {
        buffer.push(ev(100 + i, true));
    }
    let (before, _, _) = peek(&buffer);
    buffer.commit(count, tail);
    let (after, _, _) = peek(&buffer);
    assert_eq!(before, after);
    assert_eq!(after.len(), MAX_EVENTS - 1);
}
