use teleop_transport::video_slice::slice_payload;

#[test]
fn chunks_respect_mtu() {
    let mtu = 50;
    let hdr = 32;
    // mtu 50 − hdr 32 ⇒ 18-byte chunks; 54 bytes ⇒ exactly 3 chunks.
    let p = vec![7u8; 54];
    let s = slice_payload(mtu, hdr, &p);
    assert_eq!(s.len(), 3);
    assert!(s.iter().all(|c| c.len() <= mtu - hdr));
}

#[test]
fn chunks_reassemble_with_short_tail() {
    let p: Vec<u8> = (0u8..40).collect();
    let s = slice_payload(48, 32, &p);
    assert_eq!(s.len(), 3);
    assert_eq!(s[0].len(), 16);
    assert_eq!(s[1].len(), 16);
    assert_eq!(s[2].len(), 8);
    assert_eq!(s.concat(), p);
}

#[test]
fn no_room_or_no_payload_gives_no_chunks() {
    assert!(slice_payload(32, 32, &[1, 2, 3]).is_empty());
    assert!(slice_payload(10, 32, &[1, 2, 3]).is_empty());
    assert!(slice_payload(100, 32, &[]).is_empty());
}
