use teleop_transport::jpeg::{JpegAssembler, JpegScanner, GATEWAY_JPEG_MAX, RELAY_JPEG_MAX};

#[test]
fn limits() {
    assert_eq!(GATEWAY_JPEG_MAX, 32 * 1024 * 1024);
    assert_eq!(RELAY_JPEG_MAX, 8 * 1024 * 1024);
}

#[test]
fn whole_image_in_one_chunk() {
    let mut a = JpegAssembler::new(GATEWAY_JPEG_MAX);
    let mut out = Vec::new();
    a.push_chunk(&[0xff, 0xd8, 1, 2, 0xff, 0xd9], &mut out);
    assert_eq!(out, vec![vec![0xff, 0xd8, 1, 2, 0xff, 0xd9]]);
}

#[test]
fn image_split_over_chunks() {
    let mut a = JpegAssembler::new(RELAY_JPEG_MAX);
    assert!(a.push_chunk_frames(&[0xff, 0xd8, 1]).is_empty());
    assert!(a.push_chunk_frames(&[2, 3]).is_empty());
    assert_eq!(a.push_chunk_frames(&[4, 0xff, 0xd9]), vec![vec![0xff, 0xd8, 1, 2, 3, 4, 0xff, 0xd9]]);
}

#[test]
fn chunk_without_soi_is_dropped_when_idle() {
    let mut a = JpegAssembler::new(64);
    assert!(a.push_chunk_frames(&[1, 2, 0xff, 0xd9]).is_empty());
    assert_eq!(a.push_chunk_frames(&[0xff, 0xd8, 0xff, 0xd9]), vec![vec![0xff, 0xd8, 0xff, 0xd9]]);
}

#[test]
fn new_soi_discards_partial_image() {
    let mut a = JpegAssembler::new(64);
    assert!(a.push_chunk_frames(&[0xff, 0xd8, 7, 7]).is_empty());
    assert_eq!(a.push_chunk_frames(&[0xff, 0xd8, 9, 0xff, 0xd9]), vec![vec![0xff, 0xd8, 9, 0xff, 0xd9]]);
}

#[test]
fn oversize_image_is_discarded() {
    let mut a = JpegAssembler::new(5);
    assert!(a.push_chunk_frames(&[0xff, 0xd8, 1, 2]).is_empty());
    assert!(a.push_chunk_frames(&[3, 0xff, 0xd9]).is_empty());
    // The buffer was cleared, so the tail of the next image alone is dropped too.
    assert!(a.push_chunk_frames(&[0xff, 0xd9]).is_empty());
    assert_eq!(a.push_chunk_frames(&[0xff, 0xd8, 0xff, 0xd9]), vec![vec![0xff, 0xd8, 0xff, 0xd9]]);
}

#[test]
fn scanner_finds_images_across_chunk_boundaries() {
    let mut s = JpegScanner::new();
    assert!(s.push_chunk(&[9, 9, 0xff, 0xd8, 1]).is_empty());
    let frames = s.push_chunk(&[2, 0xff, 0xd9, 5, 0xff, 0xd8, 3, 0xff, 0xd9, 0xff]);
    assert_eq!(
        frames,
        vec![vec![0xff, 0xd8, 1, 2, 0xff, 0xd9], vec![0xff, 0xd8, 3, 0xff, 0xd9]]
    );
    assert_eq!(s.push_chunk(&[0xd8, 4, 0xff, 0xd9]), Vec::<Vec<u8>>::new());
}

#[test]
fn scanner_keeps_partial_image() {
    let mut s = JpegScanner::new();
    assert!(s.push_chunk(&[0xff, 0xd8, 0xff]).is_empty());
    assert_eq!(s.push_chunk(&[0xd9]), vec![vec![0xff, 0xd8, 0xff, 0xd9]]);
}

#[test]
fn scanner_eoi_must_follow_soi() {
    // FF D8 D9: the D8 and D9 share no marker, the EOI search starts after the SOI.
    let mut s = JpegScanner::new();
    assert!(s.push_chunk(&[0xff, 0xd8, 0xd9]).is_empty());
    assert_eq!(s.push_chunk(&[0xff, 0xd9]), vec![vec![0xff, 0xd8, 0xd9, 0xff, 0xd9]]);
}
