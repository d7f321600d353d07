use access_controller::wiegand::{Wiegand, WiegandRead};

fn frame_26(facility: u32, card: u32) -> u64 {
    let data = (facility << 16) | card;
    let upper = data >> 12;
    let lower = data & 0xFFF;
    let even_parity = upper.count_ones() % 2;
    let odd_parity = if (lower.count_ones() % 2) == 0 { 1 } else { 0 };
    ((even_parity as u64) << 25) | ((data as u64) << 1) | (odd_parity as u64)
}

fn frame_34(full_facility: u32, card: u32) -> u64 {
    let data = (full_facility << 16) | card;
    let upper = data >> 16;
    let lower = data & 0xFFFF;
    let even_parity = upper.count_ones() % 2;
    let odd_parity = if (lower.count_ones() % 2) == 0 { 1 } else { 0 };
    ((even_parity as u64) << 33) | ((data as u64) << 1) | (odd_parity as u64)
}

#[test]
fn test_decode_26_valid_card() {
    let facility: u32 = 100;
    let card: u32 = 12345;
    let data = (facility << 16) | card;
    let upper = data >> 12;
    let lower = data & 0xFFF;
    let even_parity = upper.count_ones() % 2;
    let odd_parity = if (lower.count_ones() % 2) == 0 { 1 } else { 0 };
    let raw = ((even_parity as u64) << 25) | ((data as u64) << 1) | (odd_parity as u64);
    let result = Wiegand::decode_26(raw);
    assert!(result.is_some());
    let read = result.unwrap();
    assert_eq!(read.facility, facility);
    assert_eq!(read.card, card);
    assert_eq!(read.raw_data, data);
}

#[test]
fn test_decode_26_facility_0_card_0() {
    let data: u32 = 0;
    let upper = data >> 12;
    let lower = data & 0xFFF;
    let even_parity = upper.count_ones() % 2;
    let odd_parity = if (lower.count_ones() % 2) == 0 { 1 } else { 0 };
    let raw = ((even_parity as u64) << 25) | ((data as u64) << 1) | (odd_parity as u64);
    let result = Wiegand::decode_26(raw);
    assert!(result.is_some());
    let read = result.unwrap();
    assert_eq!(read.facility, 0);
    assert_eq!(read.card, 0);
}

#[test]
fn test_decode_26_max_values() {
    let result = Wiegand::decode_26(frame_26(255, 65535));
    assert!(result.is_some());
    let read = result.unwrap();
    assert_eq!(read.facility, 255);
    assert_eq!(read.card, 65535);
}

#[test]
fn test_decode_26_even_parity_failure() {
    let facility: u32 = 100;
    let card: u32 = 12345;
    let data = (facility << 16) | card;
    let upper = data >> 12;
    let lower = data & 0xFFF;
    let even_parity = upper.count_ones() % 2;
    let odd_parity = if (lower.count_ones() % 2) == 0 { 1 } else { 0 };
    let wrong_even_parity = 1 - even_parity;
    let raw = ((wrong_even_parity as u64) << 25) | ((data as u64) << 1) | (odd_parity as u64);
    assert!(Wiegand::decode_26(raw).is_none());
}

#[test]
fn test_decode_26_odd_parity_failure() {
    let facility: u32 = 100;
    let card: u32 = 12345;
    let data = (facility << 16) | card;
    let upper = data >> 12;
    let lower = data & 0xFFF;
    let even_parity = upper.count_ones() % 2;
    let odd_parity = if (lower.count_ones() % 2) == 0 { 1 } else { 0 };
    let wrong_odd_parity = 1 - odd_parity;
    let raw = ((even_parity as u64) << 25) | ((data as u64) << 1) | (wrong_odd_parity as u64);
    assert!(Wiegand::decode_26(raw).is_none());
}

#[test]
fn test_decode_26_both_parity_failure() {
    let facility: u32 = 100;
    let card: u32 = 12345;
    let data = (facility << 16) | card;
    let upper = data >> 12;
    let lower = data & 0xFFF;
    let even_parity = upper.count_ones() % 2;
    let odd_parity = if (lower.count_ones() % 2) == 0 { 1 } else { 0 };
    let wrong_even_parity = 1 - even_parity;
    let wrong_odd_parity = 1 - odd_parity;
    let raw =
        ((wrong_even_parity as u64) << 25) | ((data as u64) << 1) | (wrong_odd_parity as u64);
    assert!(Wiegand::decode_26(raw).is_none());
}

#[test]
fn test_decode_26_single_bit_error_in_data() {
    let raw = frame_26(100, 12345);
    let corrupted = raw ^ (1 << 10);
    assert!(Wiegand::decode_26(corrupted).is_none());
}

#[test]
fn test_decode_34_valid_card() {
    let full_facility: u32 = 0x1234;
    let card: u32 = 0x5678;
    let data = (full_facility << 16) | card;
    let upper = data >> 16;
    let lower = data & 0xFFFF;
    let even_parity = upper.count_ones() % 2;
    let odd_parity = if (lower.count_ones() % 2) == 0 { 1 } else { 0 };
    let raw = ((even_parity as u64) << 33) | ((data as u64) << 1) | (odd_parity as u64);
    let result = Wiegand::decode_34(raw);
    assert!(result.is_some());
    let read = result.unwrap();
    assert_eq!(read.facility, full_facility & 0xFF);
    assert_eq!(read.card, card);
    assert_eq!(read.raw_data, data);
}

#[test]
fn test_decode_34_zeros() {
    let result = Wiegand::decode_34(frame_34(0, 0));
    assert!(result.is_some());
    let read = result.unwrap();
    assert_eq!(read.facility, 0);
    assert_eq!(read.card, 0);
}

#[test]
fn test_decode_34_max_values() {
    let result = Wiegand::decode_34(frame_34(0xFFFF, 0xFFFF));
    assert!(result.is_some());
    let read = result.unwrap();
    assert_eq!(read.facility, 0xFF);
    assert_eq!(read.card, 0xFFFF);
}

#[test]
fn test_decode_34_parity_failure() {
    let full_facility: u32 = 0x1234;
    let card: u32 = 0x5678;
    let data = (full_facility << 16) | card;
    let upper = data >> 16;
    let lower = data & 0xFFFF;
    let even_parity = upper.count_ones() % 2;
    let odd_parity = if (lower.count_ones() % 2) == 0 { 1 } else { 0 };
    let wrong_even = 1 - even_parity;
    let raw = ((wrong_even as u64) << 33) | ((data as u64) << 1) | (odd_parity as u64);
    assert!(Wiegand::decode_34(raw).is_none());
}

#[test]
fn test_to_fob_basic() {
    let read = WiegandRead { facility: 100, card: 12345, raw_data: 0 };
    assert_eq!(read.to_fob(), 10012345);
}

#[test]
fn test_to_fob_zero() {
    let read = WiegandRead { facility: 0, card: 0, raw_data: 0 };
    assert_eq!(read.to_fob(), 0);
}

#[test]
fn test_to_fob_max_facility() {
    let read = WiegandRead { facility: 255, card: 0, raw_data: 0 };
    assert_eq!(read.to_fob(), 25500000);
}

#[test]
fn test_to_fob_max_card() {
    let read = WiegandRead { facility: 0, card: 65535, raw_data: 0 };
    assert_eq!(read.to_fob(), 65535);
}

#[test]
fn test_to_fob_max_both() {
    let read = WiegandRead { facility: 255, card: 65535, raw_data: 0 };
    assert_eq!(read.to_fob(), 25565535);
}

#[test]
fn test_to_nfc_uid_swap() {
    let read = WiegandRead { facility: 0, card: 0, raw_data: 0x12345678 };
    assert_eq!(read.to_nfc_uid(), 0x78563412);
}

#[test]
fn test_to_nfc_uid_zero() {
    let read = WiegandRead { facility: 0, card: 0, raw_data: 0 };
    assert_eq!(read.to_nfc_uid(), 0);
}

#[test]
fn test_to_nfc_uid_max() {
    let read = WiegandRead { facility: 0, card: 0, raw_data: 0xFFFFFFFF };
    assert_eq!(read.to_nfc_uid(), 0xFFFFFFFF);
}

#[test]
fn test_to_nfc_uid_single_byte() {
    let read = WiegandRead { facility: 0, card: 0, raw_data: 0x000000AB };
    assert_eq!(read.to_nfc_uid(), 0xAB000000);
}

#[test]
fn test_decode_26_and_to_fob() {
    let read = Wiegand::decode_26(frame_26(45, 9876)).unwrap();
    assert_eq!(read.to_fob(), 4509876);
}

#[test]
fn test_decode_34_and_to_fob() {
    let read = Wiegand::decode_34(frame_34(0x0123, 0x4567)).unwrap();
    assert_eq!(read.facility, 0x23);
    assert_eq!(read.card, 0x4567);
    assert_eq!(read.to_fob(), 35 * 100_000 + 17767);
}

#[test]
fn test_decode_26_preserves_roundtrip() {
    let test_cases = [(0, 0), (1, 1), (127, 32768), (255, 65535), (100, 12345), (50, 50000)];
    for (facility, card) in test_cases {
        let result = Wiegand::decode_26(frame_26(facility, card));
        assert!(result.is_some(), "Failed to decode facility={}, card={}", facility, card);
        let read = result.unwrap();
        assert_eq!(read.facility, facility);
        assert_eq!(read.card, card);
    }
}

#[test]
fn test_decode_34_preserves_roundtrip() {
    let test_cases = [(0, 0), (0x00FF, 0x0001), (0x0100, 0xFFFF), (0xFFFF, 0xFFFF), (0x1234, 0x5678)];
    for (full_facility, card) in test_cases {
        let result = Wiegand::decode_34(frame_34(full_facility, card));
        assert!(
            result.is_some(),
            "Failed to decode full_facility={:#x}, card={:#x}",
            full_facility,
            card
        );
        let read = result.unwrap();
        assert_eq!(read.facility, full_facility & 0xFF);
        assert_eq!(read.card, card);
    }
}

#[test]
fn every_single_bit_flip_is_rejected() {
    let samples = [(0, 0), (1, 1), (45, 9876), (127, 32768), (255, 65535), (100, 12345)];
    for (facility, card) in samples {
        let raw = frame_26(facility, card);
        assert!(Wiegand::decode_26(raw).is_some());
        for k in 0..26 {
            assert!(Wiegand::decode_26(raw ^ (1u64 << k)).is_none(), "26-bit flip {}", k);
        }
        let raw34 = frame_34(facility | 0x0300, card);
        assert!(Wiegand::decode_34(raw34).is_some());
        for k in 0..34 {
            assert!(Wiegand::decode_34(raw34 ^ (1u64 << k)).is_none(), "34-bit flip {}", k);
        }
    }
}

#[test]
fn frames_of_other_lengths_are_discarded() {
    let raw = frame_26(45, 9876);
    assert!(Wiegand::decode_frame(26, raw).is_some());
    assert!(Wiegand::decode_frame(25, raw).is_none());
    assert!(Wiegand::decode_frame(27, raw).is_none());
    assert!(Wiegand::decode_frame(34, frame_34(1, 2)).is_some());
    assert!(Wiegand::decode_frame(0, 0).is_none());
}

#[test]
fn accumulator_packs_count_and_bits() {
    let s1 = Wiegand::push_bit(0, 1).unwrap();
    assert_eq!(s1 >> 56, 1);
    assert_eq!(s1 & 0x00FF_FFFF_FFFF_FFFF, 1);
    let s2 = Wiegand::push_bit(s1, 0).unwrap();
    assert_eq!(s2 >> 56, 2);
    assert_eq!(s2 & 0x00FF_FFFF_FFFF_FFFF, 0b10);
    let full = 64u64 << 56;
    assert_eq!(Wiegand::push_bit(full, 1), None);
}

#[test]
fn debounce_drops_close_transitions() {
    assert!(Wiegand::accepts_transition(0, 50));
    assert!(!Wiegand::accepts_transition(1000, 1100));
    assert!(Wiegand::accepts_transition(1000, 1200));
    assert!(!Wiegand::accepts_transition(1000, 900));
}

#[test]
fn frame_completes_after_the_quiet_time() {
    let one_bit = Wiegand::push_bit(0, 1).unwrap();
    assert!(!Wiegand::frame_ready(0, 1_000, 100_000));
    assert!(!Wiegand::frame_ready(one_bit, 1_000, 25_999));
    assert!(Wiegand::frame_ready(one_bit, 1_000, 26_000));
    assert!(!Wiegand::frame_ready(one_bit, 50_000, 1_000));
}

#[test]
fn reader_assembles_a_frame_and_decodes_it_after_the_quiet_time() {
    let reader = Wiegand::new();
    let raw = frame_26(45, 9876);
    let mut now: u64 = 1_000;
    for k in (0..26).rev() {
        reader.record_bit(((raw >> k) & 1) as u8, now);
        now += 1_000;
    }
    assert!(reader.poll(now).is_none());
    let read = reader.poll(now + 30_000).unwrap();
    assert_eq!(read.to_fob(), 4509876);
    assert!(reader.poll(now + 60_000).is_none());
}
