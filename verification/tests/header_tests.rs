use teleop_transport::error::WireError;
use teleop_transport::header::{
    LtpHeader, PayloadType, PriorityClass, FIXED_HEADER_LEN, LTP_MAGIC, LTP_VERSION,
};

#[test]
fn reject_bad_magic() {
    let mut b = vec![0u8; 32];
    b[0..4].copy_from_slice(&(LTP_MAGIC ^ 1).to_be_bytes());
    assert!(LtpHeader::parse(&b).is_err());
}

#[test]
fn reject_bad_version() {
    let mut h = LtpHeader::default();
    h.version = 9;
    let mut w = Vec::new();
    h.write_into(&mut w);
    assert!(LtpHeader::parse(&w).is_err());
}

#[test]
fn reject_payload_len_overflow() {
    let mut h = LtpHeader::default();
    h.payload_len = 1000;
    let mut w = Vec::new();
    h.write_into(&mut w);
    w.extend_from_slice(&[0u8; 10]);
    let (hdr, _) = LtpHeader::parse(&w).unwrap();
    assert!(hdr.validate_total_len(w.len()).is_err());
}

#[test]
fn fixed_header_repr_size() {
    assert_eq!(FIXED_HEADER_LEN, 32);
}

#[test]
fn round_trip_no_extension() {
    let mut h = LtpHeader::default();
    h.seq = 0x01020304;
    h.stream_id = 0xAABB;
    h.path_tag = 0x1122;
    h.payload_len = 4;
    h.timestamp_ns = 99;
    let mut w = Vec::new();
    h.write_into(&mut w);
    assert_eq!(w.len(), FIXED_HEADER_LEN);
    let (p, n) = LtpHeader::parse(&w).unwrap();
    assert_eq!(n, FIXED_HEADER_LEN);
    assert_eq!(p.seq, h.seq);
    assert_eq!(p.stream_id, h.stream_id);
    assert_eq!(p.path_tag, h.path_tag);
    assert_eq!(p.payload_len, 4);
}

#[test]
fn round_trip_with_extension() {
    let mut h = LtpHeader::default();
    h.extension = vec![1, 2, 3, 4];
    let mut w = Vec::new();
    h.write_into(&mut w);
    let (p, n) = LtpHeader::parse(&w).unwrap();
    assert_eq!(n, w.len());
    assert_eq!(p.extension, vec![1, 2, 3, 4]);
}

#[test]
fn magic_and_version_on_the_wire() {
    let h = LtpHeader::default();
    let mut w = Vec::new();
    h.write_into(&mut w);
    assert_eq!(&w[0..4], &LTP_MAGIC.to_be_bytes());
    assert_eq!(w[4], (LTP_VERSION << 4) | 8);
    assert_eq!(w[5], PriorityClass::Control.to_u8());
    assert_eq!(w[6], PayloadType::Control.to_u8());
}

#[test]
fn odd_extension_is_padded_to_dwords() {
    let mut h = LtpHeader::default();
    h.extension = vec![5, 6, 7];
    let mut w = Vec::new();
    h.write_into(&mut w);
    assert_eq!(w.len(), FIXED_HEADER_LEN + 4);
    let (p, n) = LtpHeader::parse(&w).unwrap();
    assert_eq!(n, FIXED_HEADER_LEN + 4);
    assert_eq!(p.extension, vec![5, 6, 7, 0]);
    assert_eq!(p.header_bytes_len(), 36);
    assert_eq!(p.extension_len(), 4);
}

#[test]
fn write_replaces_previous_contents() {
    let h = LtpHeader::default();
    let mut w = vec![1u8, 2, 3];
    h.write_into(&mut w);
    assert_eq!(w.len(), FIXED_HEADER_LEN);
}

#[test]
fn parse_errors_each_variant() {
    assert_eq!(LtpHeader::parse(&[0u8; 31]).unwrap_err(), WireError::BufferTooSmall);

    let mut b = vec![0u8; 32];
    b[0..4].copy_from_slice(&(LTP_MAGIC ^ 1).to_be_bytes());
    assert_eq!(LtpHeader::parse(&b).unwrap_err(), WireError::BadMagic);

    let mut good = Vec::new();
    LtpHeader::default().write_into(&mut good);

    let mut v = good.clone();
    v[4] = (9 << 4) | 8;
    assert_eq!(LtpHeader::parse(&v).unwrap_err(), WireError::UnsupportedVersion);

    let mut v = good.clone();
    v[4] = (1 << 4) | 7;
    assert_eq!(LtpHeader::parse(&v).unwrap_err(), WireError::HdrLenTooSmall);

    let mut v = good.clone();
    v[4] = (1 << 4) | 9;
    assert_eq!(LtpHeader::parse(&v).unwrap_err(), WireError::IncompleteHeader);

    let mut v = good.clone();
    v[5] = 200;
    assert_eq!(LtpHeader::parse(&v).unwrap_err(), WireError::BadPriority);

    let mut v = good.clone();
    v[6] = 200;
    assert_eq!(LtpHeader::parse(&v).unwrap_err(), WireError::BadPayloadType);
}

#[test]
fn validate_total_len_accepts_exact_fit() {
    let mut h = LtpHeader::default();
    h.payload_len = 10;
    assert!(h.validate_total_len(42).is_ok());
    assert_eq!(h.validate_total_len(41).unwrap_err(), WireError::DatagramTooShort);
}

#[test]
fn deadline_extension_round_trip() {
    let mut h = LtpHeader::default();
    assert_eq!(h.deadline_ns(), 0);
    h.set_deadline_extension(0x0102_0304_0506_0708);
    assert_eq!(h.extension, vec![1, 2, 3, 4, 5, 6, 7, 8]);
    assert_eq!(h.deadline_ns(), 0x0102_0304_0506_0708);
    let mut w = Vec::new();
    h.write_into(&mut w);
    let (p, _) = LtpHeader::parse(&w).unwrap();
    assert_eq!(p.deadline_ns(), 0x0102_0304_0506_0708);
}

#[test]
fn discriminants_round_trip() {
    for v in 0u8..=3 {
        assert_eq!(PriorityClass::try_from_u8(v).unwrap().to_u8(), v);
    }
    assert!(PriorityClass::try_from_u8(4).is_err());
    for v in 0u8..=5 {
        assert_eq!(PayloadType::try_from_u8(v).unwrap().to_u8(), v);
    }
    assert!(PayloadType::try_from_u8(6).is_err());
}

#[test]
fn error_messages() {
    assert_eq!(WireError::BadMagic.message(), "bad magic");
    assert_eq!(WireError::BufferTooSmall.message(), "buffer too small");
}

#[test]
fn try_from_matches_discriminants() {
    assert_eq!(PriorityClass::try_from(2u8), Ok(PriorityClass::Video));
    assert_eq!(PriorityClass::try_from(9u8), Err(()));
    assert_eq!(PayloadType::try_from(4u8), Ok(PayloadType::FecShard));
    assert_eq!(PayloadType::try_from(6u8), Err(()));
}
