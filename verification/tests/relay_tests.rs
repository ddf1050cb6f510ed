use teleop_transport::relay::{
    encode_video_header, parse_video_stream, quest_alpn, robot_alpn, role_for_alpn, target_role,
    FpsLimiter, Role, ONE_SECOND_NS, TELEOP_PKT_LEN, VIDEO_HDR_LEN,
};

#[test]
fn video_header_layout() {
    assert_eq!(VIDEO_HDR_LEN, 8);
    assert_eq!(TELEOP_PKT_LEN, 112);
    assert_eq!(
        encode_video_header(3, 0x0102, 0x0A0B0C0D),
        [3, 0, 0x01, 0x02, 0x0A, 0x0B, 0x0C, 0x0D]
    );
}

#[test]
fn video_stream_round_trip() {
    let jpeg = vec![0xff, 0xd8, 0xff, 0xd9];
    let mut data = encode_video_header(0, 77, jpeg.len() as u32).to_vec();
    data.extend_from_slice(&jpeg);
    assert_eq!(parse_video_stream(&data, 1), Some((0, jpeg)));
}

#[test]
fn video_stream_rejects_short_or_unknown_camera() {
    assert_eq!(parse_video_stream(&[0u8; 7], 4), None);
    let mut data = encode_video_header(2, 1, 0).to_vec();
    assert_eq!(parse_video_stream(&data, 2), None);
    assert_eq!(parse_video_stream(&data, 3), Some((2, vec![])));
    data.push(5);
    assert_eq!(parse_video_stream(&data, 3), Some((2, vec![5])));
}

#[test]
fn fps_limiter_paces_each_camera() {
    let t0 = 10 * ONE_SECOND_NS;
    let mut f = FpsLimiter::new(10, t0);
    assert!(f.allow(0, t0));
    assert!(!f.allow(0, t0 + 50_000_000));
    assert!(f.allow(1, t0 + 50_000_000));
    assert!(f.allow(0, t0 + 100_000_000));
    assert!(!f.allow(0, t0 + 150_000_000));
    // Cameras beyond the four paced ones always pass.
    assert!(f.allow(4, t0));
    assert!(f.allow(4, t0));
}

#[test]
fn fps_limiter_zero_is_unlimited() {
    let t0 = 2 * ONE_SECOND_NS;
    let mut f = FpsLimiter::new(0, t0);
    assert!(f.allow(0, t0));
    assert!(f.allow(0, t0));
}

#[test]
fn fps_limiter_clock_going_back_does_not_pass() {
    let t0 = 5 * ONE_SECOND_NS;
    let mut f = FpsLimiter::new(30, t0);
    assert!(f.allow(2, t0));
    assert!(!f.allow(2, t0 - 1000));
}

#[test]
fn roles_from_alpn() {
    assert_eq!(robot_alpn(), b"teleop-robot".to_vec());
    assert_eq!(quest_alpn(), b"teleop-quest".to_vec());
    assert_eq!(role_for_alpn(Some(b"teleop-robot")), Some(Role::Robot));
    assert_eq!(role_for_alpn(Some(b"teleop-quest")), Some(Role::Quest));
    assert_eq!(role_for_alpn(Some(b"teleop")), None);
    assert_eq!(role_for_alpn(None), None);
    assert_eq!(target_role(Role::Robot), Role::Quest);
    assert_eq!(target_role(Role::Quest), Role::Robot);
}
