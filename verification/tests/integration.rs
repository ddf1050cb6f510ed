use teleop_transport::control_envelope::{ControlEnvelope, SCHEMA_TWIST};
use teleop_transport::framer::{frame_datagram, split_header_payload};
use teleop_transport::header::{LtpHeader, PayloadType, PriorityClass, FLAG_DUPLICATE_SEND};
use teleop_transport::receive::{ReceiveDemux, ReceivedEvent};
use teleop_transport::scheduler::{PriorityScheduler, ScheduledPacket};
use teleop_transport::session::{build_control_datagram, control_packet, drain_datagrams, prepare_path_datagram};

#[test]
fn dedup_second_copy_dropped() {
    let mut d = ReceiveDemux::new(1024, 8);
    let mut h = LtpHeader::default();
    h.stream_id = 1;
    h.seq = 5;
    h.payload_type = PayloadType::Control;
    h.priority = PriorityClass::Control;
    h.payload_len = 0;
    let ev1 = d.handle_datagram(h.clone(), vec![], 0, true);
    let ev2 = d.handle_datagram(h, vec![], 0, true);
    match ev2 {
        ReceivedEvent::Duplicate => {}
        _ => panic!("expected duplicate"),
    }
    assert!(matches!(ev1, ReceivedEvent::ControlOrdered(_)));
}

#[test]
fn control_precedence_under_contention() {
    let mut sch = PriorityScheduler::default();
    sch.enqueue(ScheduledPacket {
        priority: PriorityClass::Video,
        payload_type: PayloadType::VideoSlice,
        datagram: vec![1],
        deadline_key: 1,
    });
    sch.enqueue(ScheduledPacket {
        priority: PriorityClass::Control,
        payload_type: PayloadType::Control,
        datagram: vec![2],
        deadline_key: 99,
    });
    let first = sch.pop_next().unwrap();
    assert_eq!(first.datagram[0], 2);
}

#[test]
fn control_ordered_after_reorder() {
    let mut d = ReceiveDemux::new(1024, 32);
    let mut h1 = LtpHeader::default();
    h1.stream_id = 9;
    h1.seq = 2;
    h1.payload_type = PayloadType::Control;
    h1.priority = PriorityClass::Control;
    h1.payload_len = 1;
    let mut h0 = h1.clone();
    h0.seq = 1;
    h0.payload_len = 1;

    let e0 = d.handle_datagram(h0, vec![10], 0, false);
    let e1 = d.handle_datagram(h1, vec![11], 0, false);
    let mut flat: Vec<Vec<u8>> = Vec::new();
    if let ReceivedEvent::ControlOrdered(v) = e0 {
        flat.extend(v);
    }
    if let ReceivedEvent::ControlOrdered(v) = e1 {
        flat.extend(v);
    }
    assert_eq!(flat, vec![vec![10], vec![11]]);
}

#[test]
fn split_header_round_trip() {
    let mut h = LtpHeader::default();
    h.payload_len = 3;
    let mut w = Vec::new();
    h.write_into(&mut w);
    w.extend_from_slice(&[9u8, 8, 7]);
    let (h2, pl) = split_header_payload(&w).unwrap();
    assert_eq!(h2.payload_len, 3);
    assert_eq!(pl, &[9, 8, 7]);
}

#[test]
fn duplicate_path_copies_differ_only_in_path_tag() {
    // The datagram each path sends when a control packet is replicated on two paths.
    let env = ControlEnvelope {
        schema_id: SCHEMA_TWIST,
        payload: vec![1, 2, 3],
    };
    let body = env.encode();
    let mut hdr = LtpHeader::default();
    hdr.stream_id = 7;
    hdr.seq = 1;
    let dg = build_control_datagram(&mut hdr, &body).unwrap();
    let d1 = prepare_path_datagram(&dg, 0x100, true).unwrap();
    let d2 = prepare_path_datagram(&dg, 0x200, true).unwrap();
    let (h1, p1) = split_header_payload(&d1).unwrap();
    let (h2, p2) = split_header_payload(&d2).unwrap();
    assert_ne!(h1.path_tag, h2.path_tag);
    assert_eq!(h1.path_tag, 0x100);
    assert_eq!(h2.path_tag, 0x200);
    assert_eq!(h1.seq, h2.seq);
    assert_eq!(h1.flags & FLAG_DUPLICATE_SEND, FLAG_DUPLICATE_SEND);
    assert_eq!(p1, p2);
    assert_eq!(p1, &body[..]);
}

#[test]
fn single_path_copy_keeps_flags() {
    let mut h = LtpHeader::default();
    h.payload_len = 2;
    h.flags = 1;
    let dg = frame_datagram(&h, &[4, 5]).unwrap();
    let d = prepare_path_datagram(&dg, 9, false).unwrap();
    let (h2, p) = split_header_payload(&d).unwrap();
    assert_eq!(h2.flags, 1);
    assert_eq!(h2.path_tag, 9);
    assert_eq!(p, &[4, 5]);
}

#[test]
fn frame_rejects_length_mismatch() {
    let mut h = LtpHeader::default();
    h.payload_len = 3;
    assert!(frame_datagram(&h, &[1, 2]).is_err());
    assert!(split_header_payload(&[0u8; 4]).is_err());
}

#[test]
fn control_packet_decodes_back() {
    let p = control_packet(4, SCHEMA_TWIST, &[7, 7], 42, 1234).unwrap();
    assert_eq!(p.priority, PriorityClass::Control);
    assert_eq!(p.payload_type, PayloadType::Control);
    assert_eq!(p.deadline_key, 1234);
    let (h, body) = split_header_payload(&p.datagram).unwrap();
    assert_eq!(h.stream_id, 4);
    assert_eq!(h.seq, 42);
    assert_eq!(h.timestamp_ns, 1234);
    let env = ControlEnvelope::decode(body).unwrap();
    assert_eq!(env.schema_id, SCHEMA_TWIST);
    assert_eq!(env.payload, vec![7, 7]);
}

#[test]
fn drain_skips_refused_datagrams_and_keeps_streams_apart() {
    let mut d = ReceiveDemux::new(64, 8);
    let a1 = control_packet(1, SCHEMA_TWIST, &[1], 1, 0).unwrap().datagram;
    let b5 = control_packet(2, SCHEMA_TWIST, &[2], 5, 0).unwrap().datagram;
    let mut bad = a1.clone();
    bad[0] ^= 0xFF;
    let a3 = control_packet(1, SCHEMA_TWIST, &[3], 3, 0).unwrap().datagram;
    let a2 = control_packet(1, SCHEMA_TWIST, &[4], 2, 0).unwrap().datagram;
    let evs = drain_datagrams(&mut d, &vec![a1.clone(), bad, b5, a3, a2, a1], 0, true);
    assert_eq!(evs.len(), 5);
    let sizes: Vec<usize> = evs
        .iter()
        .map(|e| match e {
            ReceivedEvent::ControlOrdered(v) => v.len(),
            ReceivedEvent::Duplicate => 99,
            _ => 100,
        })
        .collect();
    // a1 delivered; b5 opens stream 2; a3 waits for a2; a2 releases a2 and a3; a1 again is a duplicate.
    assert_eq!(sizes, vec![1, 1, 0, 2, 99]);
}
