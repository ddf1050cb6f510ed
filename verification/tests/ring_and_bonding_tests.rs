use teleop_transport::bonding::{mode_for, SendMode};
use teleop_transport::header::{PayloadType, PriorityClass};
use teleop_transport::shmem::{ShmemRing, ShmemRingHeader, SHMEM_RING_MAGIC};

#[test]
fn ring_rejects_bad_geometry() {
    assert!(ShmemRing::new(3, 8).is_none());
    assert!(ShmemRing::new(0, 8).is_none());
    assert!(ShmemRing::new(4, 0).is_none());
    assert!(ShmemRing::new(4, 8).is_some());
}

#[test]
fn ring_header_starts_empty() {
    let h = ShmemRingHeader::new(8, 16);
    assert_eq!(h.magic, SHMEM_RING_MAGIC);
    assert_eq!(h.version, 1);
    assert_eq!((h.capacity, h.stride, h.head, h.tail), (8, 16, 0, 0));
    assert_eq!(ShmemRingHeader::LAYOUT_PREFIX, 32);
}

#[test]
fn ring_is_fifo_and_bounded() {
    let mut r = ShmemRing::new(2, 4).unwrap();
    assert!(r.try_push(&[1, 2]));
    assert!(r.try_push(&[3, 4, 5, 6]));
    assert!(!r.try_push(&[7]));
    assert!(!r.try_push(&[1, 2, 3, 4, 5]));
    let mut out = [0u8; 4];
    assert_eq!(r.try_pop(&mut out), Some(2));
    assert_eq!(&out[..2], &[1, 2]);
    assert_eq!(r.try_pop(&mut out), Some(4));
    assert_eq!(out, [3, 4, 5, 6]);
    assert_eq!(r.try_pop(&mut out), None);
}

#[test]
fn ring_pop_trims_zero_tail_and_caps_to_out() {
    let mut r = ShmemRing::new(4, 6).unwrap();
    assert!(r.try_push(&[9, 0, 8, 0]));
    let mut small = [0u8; 2];
    assert_eq!(r.try_pop(&mut small), Some(2));
    assert_eq!(small, [9, 0]);
    assert!(r.try_push(&[9, 0, 8, 0]));
    let mut big = [0u8; 6];
    assert_eq!(r.try_pop(&mut big), Some(3));
    assert_eq!(&big[..3], &[9, 0, 8]);
}

#[test]
fn ring_wraps_around() {
    let mut r = ShmemRing::new(2, 1).unwrap();
    let mut out = [0u8; 1];
    for i in 1u8..10 {
        assert!(r.try_push(&[i]));
        assert_eq!(r.try_pop(&mut out), Some(1));
        assert_eq!(out[0], i);
    }
}

#[test]
fn control_and_haptic_are_duplicated() {
    assert_eq!(mode_for(PriorityClass::Control, PayloadType::Control), SendMode::Duplicate);
    assert_eq!(mode_for(PriorityClass::Haptic, PayloadType::VideoSlice), SendMode::Duplicate);
    assert_eq!(mode_for(PriorityClass::Video, PayloadType::VideoSlice), SendMode::Split);
    assert_eq!(mode_for(PriorityClass::Telemetry, PayloadType::Control), SendMode::Split);
}
