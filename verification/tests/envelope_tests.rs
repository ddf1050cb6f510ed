use teleop_transport::control_envelope::{
    schema_name, ControlEnvelope, EnvelopeReadError, SCHEMA_EXPERIMENTAL_BASE, SCHEMA_GAMEPAD,
    SCHEMA_JOINT_DELTA, SCHEMA_TWIST,
};
use teleop_transport::error::WireError;

#[test]
fn round_trip() {
    let e = ControlEnvelope {
        schema_id: SCHEMA_TWIST,
        payload: vec![9, 8, 7],
    };
    let b = e.encode();
    let d = ControlEnvelope::decode(&b).unwrap();
    assert_eq!(d, e);
}

#[test]
fn encode_layout_is_schema_len_payload() {
    let e = ControlEnvelope {
        schema_id: 0x0102,
        payload: vec![0xAA, 0xBB],
    };
    assert_eq!(e.encode(), vec![0x01, 0x02, 0x00, 0x02, 0xAA, 0xBB]);
}

#[test]
fn decode_ignores_trailing_bytes() {
    let d = ControlEnvelope::decode(&[0, 3, 0, 1, 42, 99, 98]).unwrap();
    assert_eq!(d.schema_id, 3);
    assert_eq!(d.payload, vec![42]);
}

#[test]
fn decode_errors() {
    assert_eq!(
        ControlEnvelope::decode(&[0, 1, 0]).unwrap_err(),
        WireError::EnvelopeTooShort
    );
    assert_eq!(
        ControlEnvelope::decode(&[0, 1, 0, 5, 1, 2]).unwrap_err(),
        WireError::EnvelopeInnerLenExceeds
    );
}

#[test]
fn write_then_read_back() {
    let e = ControlEnvelope {
        schema_id: SCHEMA_GAMEPAD,
        payload: vec![1, 2, 3, 4],
    };
    let mut out = vec![0xEE];
    e.write_into(&mut out);
    assert_eq!(out.len(), 1 + 4 + 4);
    let (d, n) = ControlEnvelope::read_from(&out[1..], 16).unwrap();
    assert_eq!(d, e);
    assert_eq!(n, 8);
}

#[test]
fn read_from_errors() {
    assert_eq!(
        ControlEnvelope::read_from(&[0, 1], 16).unwrap_err(),
        EnvelopeReadError::UnexpectedEof
    );
    assert_eq!(
        ControlEnvelope::read_from(&[0, 1, 0, 20], 16).unwrap_err(),
        EnvelopeReadError::InvalidData
    );
    assert_eq!(
        ControlEnvelope::read_from(&[0, 1, 0, 3, 1], 16).unwrap_err(),
        EnvelopeReadError::UnexpectedEof
    );
}

#[test]
fn schema_names() {
    assert_eq!(schema_name(SCHEMA_TWIST), "twist");
    assert_eq!(schema_name(SCHEMA_JOINT_DELTA), "joint_delta");
    assert_eq!(schema_name(SCHEMA_GAMEPAD), "gamepad");
    assert_eq!(schema_name(SCHEMA_EXPERIMENTAL_BASE), "experimental");
    assert_eq!(schema_name(0xFFFF), "experimental");
    assert_eq!(schema_name(77), "unknown");
}

#[test]
fn prefix_is_four_bytes() {
    assert_eq!(ControlEnvelope::PREFIX_LEN, 4);
    let e = ControlEnvelope { schema_id: 1, payload: vec![5; 10] };
    assert_eq!(e.encode().len(), ControlEnvelope::PREFIX_LEN + 10);
}
