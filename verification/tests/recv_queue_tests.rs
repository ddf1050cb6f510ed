use teleop_transport::control_envelope::ControlEnvelope;
use teleop_transport::receive::ReceivedEvent;
use teleop_transport::recv_queue::{LtpErr, RecvItem, RecvPop, RecvQueue, LTP_ABI_VERSION, RECV_QUEUE_MAX};

fn env(schema_id: u16, payload: Vec<u8>) -> Vec<u8> {
    ControlEnvelope { schema_id, payload }.encode()
}

#[test]
fn error_codes() {
    assert_eq!(LtpErr::Success.code(), 0);
    assert_eq!(LtpErr::Inval.code(), 1);
    assert_eq!(LtpErr::Io.code(), 2);
    assert_eq!(LtpErr::Abi.code(), 3);
    assert_eq!(LtpErr::Again.code(), 4);
    assert_eq!(LTP_ABI_VERSION, 2);
}

#[test]
fn events_become_items_in_order() {
    let mut q = RecvQueue::new();
    let events = vec![
        ReceivedEvent::Duplicate,
        ReceivedEvent::ControlOrdered(vec![env(3, vec![1, 2]), vec![0, 1], env(4, vec![])]),
        ReceivedEvent::Telemetry(vec![9]),
        ReceivedEvent::VideoProgress { frame: None },
        ReceivedEvent::VideoProgress { frame: Some(vec![0xff, 0xd8, 0xff, 0xd9]) },
    ];
    q.enqueue_events(events);
    assert_eq!(q.len(), 3);
    match q.pop(16) {
        RecvPop::Item { kind, schema_id, payload } => {
            assert_eq!((kind, schema_id, payload), (0, 3, vec![1, 2]));
        }
        _ => panic!("expected an item"),
    }
    match q.pop(16) {
        RecvPop::Item { kind, schema_id, payload } => {
            assert_eq!((kind, schema_id, payload), (0, 4, vec![]));
        }
        _ => panic!("expected an item"),
    }
    match q.pop(16) {
        RecvPop::Item { kind, schema_id, payload } => {
            assert_eq!((kind, schema_id, payload), (1, 0, vec![0xff, 0xd8, 0xff, 0xd9]));
        }
        _ => panic!("expected an item"),
    }
    assert!(matches!(q.pop(16), RecvPop::Empty));
}

#[test]
fn too_small_leaves_item_queued() {
    let mut q = RecvQueue::new();
    q.push(RecvItem::VideoJpeg(vec![1, 2, 3, 4, 5]));
    assert!(matches!(q.pop(4), RecvPop::TooSmall(5)));
    assert_eq!(q.len(), 1);
    assert!(matches!(q.pop(5), RecvPop::Item { kind: 1, .. }));
    assert_eq!(q.len(), 0);
}

#[test]
fn full_queue_drops_oldest() {
    let mut q = RecvQueue::new();
    for i in 0..(RECV_QUEUE_MAX + 6) {
        q.push(RecvItem::Control { schema_id: i as u16, payload: vec![] });
    }
    assert_eq!(q.len(), RECV_QUEUE_MAX);
    match q.pop(0) {
        RecvPop::Item { schema_id, .. } => assert_eq!(schema_id, 6),
        _ => panic!("expected an item"),
    }
}
