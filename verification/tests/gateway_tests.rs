use teleop_transport::control_envelope::{ControlEnvelope, SCHEMA_EXPERIMENTAL_BASE};
use teleop_transport::error::WireError;
use teleop_transport::framer::split_header_payload;
use teleop_transport::gateway::{
    stream_for_camera, teleop_payloads, validate_teleop_ip, video_congested, video_frame_packets,
    GatewayStats, JpegSendError, TeleopTargetError, VIDEO_HDR_BODY,
};
use teleop_transport::header::{PayloadType, PriorityClass};
use teleop_transport::receive::VideoReassembly;

#[test]
fn frame_is_sliced_numbered_and_deadlined() {
    let jpeg: Vec<u8> = (0u8..25).collect();
    let mut seq = 7u32;
    let pkts = video_frame_packets(VIDEO_HDR_BODY + 10, 3, &mut seq, 42, &jpeg, 1000).unwrap();
    assert_eq!(pkts.len(), 3);
    assert_eq!(seq, 10);
    let mut joined = Vec::new();
    for (i, p) in pkts.iter().enumerate() {
        assert_eq!(p.priority, PriorityClass::Video);
        assert_eq!(p.payload_type, PayloadType::VideoSlice);
        assert_eq!(p.deadline_key, 1000 + 500_000_000);
        assert!(p.datagram.len() <= VIDEO_HDR_BODY + 10);
        let (h, body) = split_header_payload(&p.datagram).unwrap();
        assert_eq!(h.stream_id, 3);
        assert_eq!(h.seq, 8 + i as u32);
        assert_eq!(h.frame_id, 42);
        assert_eq!(h.slice_id, i as u8);
        assert_eq!(h.slice_count, 3);
        assert_eq!(h.timestamp_ns, 1000);
        assert_eq!(h.deadline_ns(), 1000 + 500_000_000);
        joined.extend_from_slice(body);
    }
    assert_eq!(joined, jpeg);
}

#[test]
fn sequence_numbers_wrap() {
    let mut seq = u32::MAX;
    let pkts = video_frame_packets(100, 1, &mut seq, 1, &[1, 2, 3], u64::MAX).unwrap();
    assert_eq!(pkts.len(), 1);
    assert_eq!(seq, 0);
    assert_eq!(pkts[0].deadline_key, u64::MAX);
}

#[test]
fn too_many_slices_is_refused() {
    let jpeg = vec![0u8; 256];
    let mut seq = 5u32;
    let err = video_frame_packets(VIDEO_HDR_BODY + 1, 1, &mut seq, 1, &jpeg, 0).unwrap_err();
    assert_eq!(
        err,
        JpegSendError::TooManySlices { jpeg_len: 256, slices: 256, min_mtu: 2 + 40 }
    );
    assert_eq!(seq, 5);
}

#[test]
fn empty_frame_or_no_room_sends_nothing() {
    let mut seq = 5u32;
    assert!(video_frame_packets(1380, 1, &mut seq, 1, &[], 0).unwrap().is_empty());
    assert!(video_frame_packets(VIDEO_HDR_BODY, 1, &mut seq, 1, &[1, 2], 0).unwrap().is_empty());
    assert_eq!(seq, 5);
}

#[test]
fn slice_over_sixteen_bits_is_refused() {
    let jpeg = vec![0u8; 70_000];
    let mut seq = 0u32;
    let err = video_frame_packets(100_000, 1, &mut seq, 1, &jpeg, 0).unwrap_err();
    assert_eq!(err, JpegSendError::Frame(WireError::PayloadLenMismatch));
    assert_eq!(seq, 1);
}

#[test]
fn teleop_records_are_filtered() {
    let schema = SCHEMA_EXPERIMENTAL_BASE;
    let rec = vec![7u8; 112];
    let chunks = vec![
        ControlEnvelope { schema_id: schema, payload: rec.clone() }.encode(),
        ControlEnvelope { schema_id: schema, payload: vec![1; 111] }.encode(),
        ControlEnvelope { schema_id: schema + 1, payload: rec.clone() }.encode(),
        vec![0, 1],
        ControlEnvelope { schema_id: schema, payload: vec![9; 112] }.encode(),
    ];
    assert_eq!(teleop_payloads(&chunks, schema), vec![rec, vec![9; 112]]);
}

#[test]
fn camera_streams_and_backpressure() {
    assert_eq!(stream_for_camera(0), Some(1));
    assert_eq!(stream_for_camera(3), Some(4));
    assert_eq!(stream_for_camera(4), None);
    assert!(!video_congested(512));
    assert!(video_congested(513));
}

#[test]
fn teleop_target_must_be_specific() {
    assert_eq!(validate_teleop_ip(&[0, 0, 0, 0]), Err(TeleopTargetError::UnspecifiedV4));
    assert_eq!(validate_teleop_ip(&[0u8; 16]), Err(TeleopTargetError::UnspecifiedV6));
    assert_eq!(validate_teleop_ip(&[127, 0, 0, 1]), Ok(()));
    let mut v6 = [0u8; 16];
    v6[15] = 1;
    assert_eq!(validate_teleop_ip(&v6), Ok(()));
    assert!(TeleopTargetError::UnspecifiedV4.message().contains("0.0.0.0"));
}

#[test]
fn stats_report_every_interval_and_resets_latency() {
    let mut s = GatewayStats::default();
    assert!(s.maybe_log(0).is_none());
    s.jpeg_frames[1] = 3;
    s.lat_channel_us_sum = 90;
    s.lat_sample_count = 3;
    s.lat_poll_us_sum = 40;
    s.lat_loop_count = 0;
    let r = s.maybe_log(1_000).unwrap();
    assert_eq!(r.jpeg_frames, [0, 3, 0, 0]);
    assert_eq!(r.chan_queue_avg_us, 30);
    assert_eq!(r.poll_avg_us, 40);
    assert_eq!(r.loops, 1);
    assert_eq!(r.jpegs, 3);
    assert_eq!(s.lat_channel_us_sum, 0);
    assert_eq!(s.lat_sample_count, 0);
    assert_eq!(s.last_emit_ns, Some(1_000));
    assert!(s.maybe_log(1_000 + 4_999_999_999).is_none());
    assert!(s.maybe_log(1_000 + 5_000_000_000).is_some());
}

#[test]
fn sliced_frame_reassembles_in_any_order() {
    let jpeg: Vec<u8> = (0u8..=200).collect();
    let mut seq = 0u32;
    let pkts = video_frame_packets(VIDEO_HDR_BODY + 64, 2, &mut seq, 9, &jpeg, 5_000).unwrap();
    assert_eq!(pkts.len(), 4);
    let mut v = VideoReassembly::default();
    let order = [2usize, 0, 3, 1];
    for (k, &i) in order.iter().enumerate() {
        let (h, body) = split_header_payload(&pkts[i].datagram).unwrap();
        let out = v.ingest(&h, body, 1_000_000 + k as u64);
        if k + 1 < order.len() {
            assert!(out.is_none());
        } else {
            assert_eq!(out.unwrap(), jpeg);
        }
    }
}
