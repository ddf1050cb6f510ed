use teleop_transport::header::{PayloadType, PriorityClass};
use teleop_transport::scheduler::{PriorityScheduler, ScheduledPacket, VIDEO_QUEUE_CAP};

fn pkt(priority: PriorityClass, ptype: PayloadType, deadline: u64, len: usize) -> ScheduledPacket {
    ScheduledPacket {
        priority,
        payload_type: ptype,
        datagram: vec![0u8; len],
        deadline_key: deadline,
    }
}

#[test]
fn control_before_video() {
    let mut s = PriorityScheduler::default();
    s.enqueue(pkt(PriorityClass::Video, PayloadType::VideoSlice, 1, 10));
    s.enqueue(pkt(PriorityClass::Control, PayloadType::Control, 9, 5));
    let first = s.pop_next().unwrap();
    assert_eq!(first.priority, PriorityClass::Control);
}

#[test]
fn video_edf() {
    let mut s = PriorityScheduler::default();
    s.enqueue(pkt(PriorityClass::Video, PayloadType::VideoSlice, 100, 1));
    s.enqueue(pkt(PriorityClass::Video, PayloadType::VideoSlice, 10, 1));
    let a = s.pop_next().unwrap();
    assert_eq!(a.deadline_key, 10);
}

#[test]
fn pending_len_tracks_queues() {
    let mut s = PriorityScheduler::default();
    assert_eq!(s.pending_len(), 0);
    s.enqueue(pkt(PriorityClass::Video, PayloadType::VideoSlice, 1, 10));
    assert_eq!(s.pending_len(), 1);
    s.enqueue(pkt(PriorityClass::Control, PayloadType::Control, 0, 5));
    assert_eq!(s.pending_len(), 2);
    let _ = s.pop_next();
    assert_eq!(s.pending_len(), 1);
}

#[test]
fn video_cap_sheds_oldest() {
    let mut s = PriorityScheduler::default();
    for i in 0..VIDEO_QUEUE_CAP + 100 {
        s.enqueue(pkt(PriorityClass::Video, PayloadType::VideoSlice, i as u64, 10));
    }
    assert_eq!(s.video_queue_len(), VIDEO_QUEUE_CAP);
    assert_eq!(s.video_dropped, 100);
}

#[test]
fn purge_expired_drops_old() {
    let mut s = PriorityScheduler::default();
    s.enqueue(pkt(PriorityClass::Video, PayloadType::VideoSlice, 100, 10));
    s.enqueue(pkt(PriorityClass::Video, PayloadType::VideoSlice, 500, 10));
    s.enqueue(pkt(PriorityClass::Video, PayloadType::VideoSlice, 200, 10));
    let dropped = s.purge_expired_video(250);
    assert_eq!(dropped, 2);
    assert_eq!(s.video_queue_len(), 1);
    let p = s.pop_next().unwrap();
    assert_eq!(p.deadline_key, 500);
}

#[test]
fn class_order_control_haptic_video_telemetry() {
    let mut s = PriorityScheduler::default();
    s.enqueue(pkt(PriorityClass::Telemetry, PayloadType::Telemetry, 0, 1));
    s.enqueue(pkt(PriorityClass::Video, PayloadType::VideoSlice, 5, 1));
    s.enqueue(pkt(PriorityClass::Haptic, PayloadType::Haptic, 0, 1));
    s.enqueue(pkt(PriorityClass::Control, PayloadType::Control, 0, 1));
    let order: Vec<PriorityClass> = (0..4).map(|_| s.pop_next().unwrap().priority).collect();
    assert_eq!(
        order,
        vec![
            PriorityClass::Control,
            PriorityClass::Haptic,
            PriorityClass::Video,
            PriorityClass::Telemetry
        ]
    );
    assert!(s.pop_next().is_none());
}

#[test]
fn same_class_is_fifo() {
    let mut s = PriorityScheduler::default();
    let mut a = pkt(PriorityClass::Control, PayloadType::Control, 0, 1);
    a.datagram = vec![1];
    let mut b = pkt(PriorityClass::Control, PayloadType::Control, 0, 1);
    b.datagram = vec![2];
    s.enqueue(a);
    s.enqueue(b);
    assert_eq!(s.pop_next().unwrap().datagram, vec![1]);
    assert_eq!(s.pop_next().unwrap().datagram, vec![2]);
}

#[test]
fn equal_deadlines_pop_greater_datagram_first() {
    let mut s = PriorityScheduler::default();
    let mut a = pkt(PriorityClass::Video, PayloadType::VideoSlice, 7, 1);
    a.datagram = vec![9];
    let mut b = pkt(PriorityClass::Video, PayloadType::VideoSlice, 7, 1);
    b.datagram = vec![3];
    s.enqueue(a);
    s.enqueue(b);
    assert_eq!(s.pop_next().unwrap().datagram, vec![9]);
    assert_eq!(s.pop_next().unwrap().datagram, vec![3]);
}

#[test]
fn telemetry_tick_reset_keeps_queues() {
    let mut s = PriorityScheduler::default();
    s.enqueue(pkt(PriorityClass::Telemetry, PayloadType::Telemetry, 0, 3));
    s.reset_telemetry_tick();
    assert_eq!(s.pending_len(), 1);
}
