use teleop_transport::header::{LtpHeader, PayloadType, PriorityClass};
use teleop_transport::receive::{DedupTable, ReceiveDemux, ReceivedEvent, StreamReorder, VideoReassembly};

fn slice_hdr(
    frame_id: u16,
    slice_id: u8,
    slice_count: u8,
    capture_ns: u64,
    deadline_ns: u64,
) -> LtpHeader {
    let mut h = LtpHeader::default();
    h.payload_type = PayloadType::VideoSlice;
    h.priority = PriorityClass::Video;
    h.frame_id = frame_id;
    h.slice_id = slice_id;
    h.slice_count = slice_count;
    h.timestamp_ns = capture_ns;
    h.set_deadline_extension(deadline_ns);
    h
}

#[test]
fn video_completes_when_receiver_clock_far_ahead_of_sender_wall_deadline() {
    let mut v = VideoReassembly::default();
    let robot_capture = 1_000_000_000_000u64;
    let h = slice_hdr(7, 0, 1, robot_capture, robot_capture + 100_000_000);
    let quest_now = robot_capture + 10_000_000_000;
    let jpeg = vec![0xff, 0xd8, 0xff, 0xd9];
    let out = v.ingest(&h, &jpeg, quest_now);
    assert!(
        out.is_some(),
        "single-slice JPEG must reassemble; old logic compared absolute sender deadline to receiver now and dropped everything"
    );
}

#[test]
fn multi_slice_uses_header_budget_on_receiver_timeline() {
    let mut v = VideoReassembly::default();
    let t0 = 5_000_000_000u64;
    let mut h0 = slice_hdr(1, 0, 2, t0, t0 + 200_000_000);
    h0.seq = 1;
    assert!(v.ingest(&h0, b"a", t0).is_none());
    let mut h1 = slice_hdr(1, 1, 2, t0, t0 + 200_000_000);
    h1.seq = 2;
    let out = v.ingest(&h1, b"b", t0 + 50_000_000).unwrap();
    assert_eq!(out, b"ab");
}

#[test]
fn multi_slice_slice_zero_arrives_last_after_reorder_still_completes() {
    let mut v = VideoReassembly::default();
    let t0 = 1_000_000_000u64;
    let mut h1 = slice_hdr(9, 1, 2, t0, t0 + 200_000_000);
    h1.seq = 2;
    assert!(v.ingest(&h1, b"b", t0).is_none());
    let late = t0 + 250_000_000;
    let mut h0 = slice_hdr(9, 0, 2, t0, t0 + 200_000_000);
    h0.seq = 1;
    let out = v.ingest(&h0, b"a", late).unwrap();
    assert_eq!(out, b"ab");
}

#[test]
fn stale_frame_is_dropped_after_its_budget() {
    let mut v = VideoReassembly::default();
    let t0 = 1_000_000_000u64;
    let h0 = slice_hdr(3, 0, 2, t0, t0 + 100_000_000);
    assert!(v.ingest(&h0, b"a", t0).is_none());
    // Past the 100 ms budget the partial frame is swept; the late slice starts afresh.
    v.sweep_stale(t0 + 150_000_000);
    let h1 = slice_hdr(3, 1, 2, t0, t0 + 100_000_000);
    assert!(v.ingest(&h1, b"b", t0 + 150_000_000).is_none());
}

#[test]
fn dedup_remembers_up_to_capacity() {
    let mut d = DedupTable::new(2);
    assert!(d.first_arrival(1, 1));
    assert!(!d.first_arrival(1, 1));
    assert!(d.first_arrival(1, 2));
    assert!(d.first_arrival(1, 3));
    // (1, 1) was forgotten to make room.
    assert!(d.first_arrival(1, 1));
}

#[test]
fn reorder_holds_gaps_and_releases_runs() {
    let mut r = StreamReorder::new(8);
    assert_eq!(r.push(10, vec![10]), vec![vec![10u8]]);
    assert!(r.push(12, vec![12]).is_empty());
    assert_eq!(r.push(11, vec![11]), vec![vec![11u8], vec![12u8]]);
    // Old sequence numbers are dropped.
    assert!(r.push(9, vec![9]).is_empty());
}

#[test]
fn reorder_wraps_around_u32() {
    let mut r = StreamReorder::new(8);
    assert_eq!(r.push(u32::MAX, vec![1]), vec![vec![1u8]]);
    assert_eq!(r.push(0, vec![2]), vec![vec![2u8]]);
}

#[test]
fn telemetry_passes_through() {
    let mut d = ReceiveDemux::new(16, 8);
    let mut h = LtpHeader::default();
    h.priority = PriorityClass::Telemetry;
    h.payload_type = PayloadType::Telemetry;
    match d.handle_datagram(h, vec![5, 6], 0, true) {
        ReceivedEvent::Telemetry(p) => assert_eq!(p, vec![5, 6]),
        _ => panic!("expected telemetry"),
    }
}

#[test]
fn duplicates_pass_without_duplicate_mode() {
    let mut d = ReceiveDemux::new(16, 8);
    let mut h = LtpHeader::default();
    h.priority = PriorityClass::Telemetry;
    h.payload_type = PayloadType::Telemetry;
    let a = d.handle_datagram(h.clone(), vec![1], 0, false);
    let b = d.handle_datagram(h, vec![1], 0, false);
    assert!(matches!(a, ReceivedEvent::Telemetry(_)));
    assert!(matches!(b, ReceivedEvent::Telemetry(_)));
}
