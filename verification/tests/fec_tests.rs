use teleop_transport::fec::{xor_parity, xor_recover_one_missing, VideoFecGroup};

#[test]
fn xor_recover() {
    let a = vec![1u8, 2, 3];
    let b = vec![4u8, 5, 6];
    let p = xor_parity(&[a.clone(), b.clone()]).unwrap();
    let out = xor_recover_one_missing(vec![Some(a.clone()), None], &p).unwrap();
    assert_eq!(out[1], b);
}

#[test]
fn parity_is_bytewise_xor() {
    let p = xor_parity(&[vec![0x0Fu8, 0xF0], vec![0xFFu8, 0x0F], vec![0x01u8, 0x01]]).unwrap();
    assert_eq!(p, vec![0x0F ^ 0xFF ^ 0x01, 0xF0 ^ 0x0F ^ 0x01]);
}

#[test]
fn parity_refuses_empty_or_ragged() {
    assert!(xor_parity(&[]).is_none());
    assert!(xor_parity(&[vec![1u8, 2], vec![3u8]]).is_none());
}

#[test]
fn recover_middle_block_of_three() {
    let a = vec![10u8, 20];
    let b = vec![30u8, 40];
    let c = vec![50u8, 60];
    let p = xor_parity(&[a.clone(), b.clone(), c.clone()]).unwrap();
    let out = xor_recover_one_missing(vec![Some(a.clone()), None, Some(c.clone())], &p).unwrap();
    assert_eq!(out, vec![a, b, c]);
}

#[test]
fn recover_needs_exactly_one_missing() {
    let p = vec![0u8; 2];
    assert!(xor_recover_one_missing(vec![Some(vec![1u8, 2]), Some(vec![3u8, 4])], &p).is_none());
    assert!(xor_recover_one_missing(vec![None, None], &p).is_none());
    assert!(xor_recover_one_missing(vec![], &p).is_none());
    assert!(xor_recover_one_missing(vec![Some(vec![1u8]), None], &p).is_none());
}

#[test]
fn fec_group_completes_in_index_order() {
    let mut g = VideoFecGroup::default();
    assert!(g.ingest(1, vec![3, 4], 2).is_none());
    assert_eq!(g.k, 2);
    let out = g.ingest(0, vec![1, 2], 5).unwrap();
    assert_eq!(g.k, 2);
    assert_eq!(out, vec![1, 2, 3, 4]);
}
