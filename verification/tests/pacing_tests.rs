use teleop_transport::pacing::{
    loop_pause_us, next_backoff, TeleopRetry, TELEOP_RETRY_MAX_NS, TELEOP_RETRY_MIN_NS,
    TELEOP_WARN_EVERY_NS, WS_RETRY_MAX_NS,
};

#[test]
fn backoff_doubles_up_to_cap() {
    assert_eq!(next_backoff(300_000_000, WS_RETRY_MAX_NS), 600_000_000);
    assert_eq!(next_backoff(4_000_000_000, WS_RETRY_MAX_NS), WS_RETRY_MAX_NS);
    assert_eq!(next_backoff(u64::MAX, 7), 7);
    assert_eq!(next_backoff(0, 7), 0);
    let mut b = TELEOP_RETRY_MIN_NS;
    let mut seen = Vec::new();
    for _ in 0..6 {
        b = next_backoff(b, TELEOP_RETRY_MAX_NS);
        seen.push(b / 1_000_000);
    }
    assert_eq!(seen, vec![400, 800, 1600, 2000, 2000, 2000]);
}

#[test]
fn teleop_retry_schedule() {
    let mut r = TeleopRetry::new(0);
    assert!(r.due(false, 0));
    assert!(!r.due(true, 0));
    assert!(r.on_connect_failed(0));
    assert_eq!(r.next_try_ns, TELEOP_RETRY_MIN_NS);
    assert_eq!(r.next_warn_ns, TELEOP_WARN_EVERY_NS);
    assert_eq!(r.backoff_ns, 400_000_000);
    assert!(!r.due(false, TELEOP_RETRY_MIN_NS - 1));
    assert!(r.due(false, TELEOP_RETRY_MIN_NS));
    // A second failure soon after does not warn again.
    assert!(!r.on_connect_failed(TELEOP_RETRY_MIN_NS));
    assert_eq!(r.next_try_ns, TELEOP_RETRY_MIN_NS + 400_000_000);
    r.on_connected();
    assert_eq!(r.backoff_ns, TELEOP_RETRY_MIN_NS);
    r.on_write_failed(9_000);
    assert_eq!(r.next_try_ns, 9_000);
    assert!(r.due(false, 9_000));
}

#[test]
fn loop_pauses() {
    assert_eq!(loop_pause_us(3, true), 50);
    assert_eq!(loop_pause_us(0, true), 200);
    assert_eq!(loop_pause_us(0, false), 500);
}
