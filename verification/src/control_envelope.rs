//! Control payload envelope: `control_schema_id` + opaque bytes after the LTP header.

use vstd::prelude::*;

use crate::error::WireError;
use crate::wire::{be16, lemma_be16_decode, push_all, push_be16, read_u16, u16_at};

verus! {

/// Well-known schema IDs (integrators may use the experimental range from `SCHEMA_EXPERIMENTAL_BASE`).
pub const SCHEMA_TWIST: u16 = 1;

pub const SCHEMA_JOINT_DELTA: u16 = 2;

pub const SCHEMA_GAMEPAD: u16 = 3;

pub const SCHEMA_EXPERIMENTAL_BASE: u16 = 0xE000;

/// Bytes before the payload: schema id (BE) + inner length (BE).
pub const ENVELOPE_PREFIX_LEN: usize = 4;

#[derive(Clone, Debug, PartialEq, Eq)]
pub struct ControlEnvelope {
    pub schema_id: u16,
    pub payload: Vec<u8>,
}

/// Failure of `ControlEnvelope::read_from`, named after the I/O error kind it stands for.
#[derive(Clone, Copy, Debug, PartialEq, Eq, Structural)]
pub enum EnvelopeReadError {
    /// The input ended before the prefix or the payload was complete.
    UnexpectedEof,
    /// The declared inner length exceeds the caller's maximum.
    InvalidData,
}

/// The bytes of an envelope: schema id, payload length (truncated to 16 bits), payload.
pub open spec fn encode_envelope(schema_id: u16, payload: Seq<u8>) -> Seq<u8> {
    be16(schema_id) + be16(payload.len() as u16) + payload
}

/// What `ControlEnvelope::decode` returns for `b`: schema id and payload.
pub open spec fn decode_envelope(b: Seq<u8>) -> Result<(u16, Seq<u8>), WireError> {
    if b.len() < ENVELOPE_PREFIX_LEN {
        Err(WireError::EnvelopeTooShort)
    } else if b.len() - 4 < u16_at(b, 2) {
        Err(WireError::EnvelopeInnerLenExceeds)
    } else {
        Ok((u16_at(b, 0), b.subrange(4, 4 + u16_at(b, 2))))
    }
}

/// What `ControlEnvelope::read_from` returns: schema id, payload and bytes consumed.
pub open spec fn read_envelope(b: Seq<u8>, max_inner: nat) -> Result<
    (u16, Seq<u8>, nat),
    EnvelopeReadError,
> {
    if b.len() < ENVELOPE_PREFIX_LEN {
        Err(EnvelopeReadError::UnexpectedEof)
    } else if u16_at(b, 2) > max_inner {
        Err(EnvelopeReadError::InvalidData)
    } else if b.len() - 4 < u16_at(b, 2) {
        Err(EnvelopeReadError::UnexpectedEof)
    } else {
        Ok((u16_at(b, 0), b.subrange(4, 4 + u16_at(b, 2)), (4 + u16_at(b, 2)) as nat))
    }
}

impl ControlEnvelope {
    /// Bytes before the payload: schema id (BE) + inner length (BE).
    pub const PREFIX_LEN: usize = ENVELOPE_PREFIX_LEN;

    /// The envelope's bytes.
    pub fn encode(&self) -> (r: Vec<u8>)
        ensures
            r@ == encode_envelope(self.schema_id, self.payload@),
    {
        let mut v: Vec<u8> = Vec::new();
        push_be16(&mut v, self.schema_id);
        push_be16(&mut v, self.payload.len() as u16);
        push_all(&mut v, self.payload.as_slice());
        v
    }

    /// Decodes an envelope from the start of `bytes`; bytes after the payload are ignored.
    pub fn decode(bytes: &[u8]) -> (r: Result<ControlEnvelope, WireError>)
        ensures
            match r {
                Ok(e) => decode_envelope(bytes@) == Ok::<(u16, Seq<u8>), WireError>(
                    (e.schema_id, e.payload@),
                ),
                Err(err) => decode_envelope(bytes@) == Err::<(u16, Seq<u8>), WireError>(err),
            },
    {
        if bytes.len() < ENVELOPE_PREFIX_LEN {
            return Err(WireError::EnvelopeTooShort);
        }
        let schema_id = read_u16(bytes, 0);
        let inner_len = read_u16(bytes, 2) as usize;
        if bytes.len() - 4 < inner_len {
            return Err(WireError::EnvelopeInnerLenExceeds);
        }
        let mut payload: Vec<u8> = Vec::new();
        push_all(&mut payload, &bytes[4..4 + inner_len]);
        Ok(ControlEnvelope { schema_id, payload })
    }

    /// Appends the envelope's bytes to `out`.
    pub fn write_into(&self, out: &mut Vec<u8>)
        ensures
            final(out)@ == old(out)@ + encode_envelope(self.schema_id, self.payload@),
    {
        push_be16(out, self.schema_id);
        push_be16(out, self.payload.len() as u16);
        push_all(out, self.payload.as_slice());
        assert(out@ =~= old(out)@ + encode_envelope(self.schema_id, self.payload@));
    }

    /// Reads one envelope from the front of `input`, refusing inner lengths above
    /// `max_inner`; returns it with the number of bytes consumed.
    pub fn read_from(input: &[u8], max_inner: usize) -> (r: Result<
        (ControlEnvelope, usize),
        EnvelopeReadError,
    >)
        ensures
            match r {
                Ok((e, n)) => read_envelope(input@, max_inner as nat) == Ok::<
                    (u16, Seq<u8>, nat),
                    EnvelopeReadError,
                >((e.schema_id, e.payload@, n as nat)),
                Err(err) => read_envelope(input@, max_inner as nat) == Err::<
                    (u16, Seq<u8>, nat),
                    EnvelopeReadError,
                >(err),
            },
    {
        if input.len() < ENVELOPE_PREFIX_LEN {
            return Err(EnvelopeReadError::UnexpectedEof);
        }
        let schema_id = read_u16(input, 0);
        let inner_len = read_u16(input, 2) as usize;
        if inner_len > max_inner {
            return Err(EnvelopeReadError::InvalidData);
        }
        if input.len() - 4 < inner_len {
            return Err(EnvelopeReadError::UnexpectedEof);
        }
        let mut payload: Vec<u8> = Vec::new();
        push_all(&mut payload, &input[4..4 + inner_len]);
        Ok((ControlEnvelope { schema_id, payload }, 4 + inner_len))
    }
}

/// Decoding an encoded envelope gives it back, whatever bytes follow it.
pub proof fn lemma_decode_after_encode(schema_id: u16, payload: Seq<u8>, trailing: Seq<u8>)
    requires
        payload.len() <= 0xFFFF,
    ensures
        decode_envelope(encode_envelope(schema_id, payload) + trailing) == Ok::<
            (u16, Seq<u8>),
            WireError,
        >((schema_id, payload)),
{
    let b = encode_envelope(schema_id, payload) + trailing;
    lemma_be16_decode(schema_id);
    lemma_be16_decode(payload.len() as u16);
    assert(u16_at(b, 0) == u16_at(be16(schema_id), 0));
    assert(u16_at(b, 2) == u16_at(be16(payload.len() as u16), 0));
    assert(b.subrange(4, 4 + payload.len() as int) =~= payload);
}

/// Reading an encoded envelope within the size limit gives it back and consumes
/// exactly its bytes.
pub proof fn lemma_read_after_write(
    schema_id: u16,
    payload: Seq<u8>,
    trailing: Seq<u8>,
    max_inner: nat,
)
    requires
        payload.len() <= 0xFFFF,
        payload.len() <= max_inner,
    ensures
        read_envelope(encode_envelope(schema_id, payload) + trailing, max_inner) == Ok::<
            (u16, Seq<u8>, nat),
            EnvelopeReadError,
        >((schema_id, payload, 4 + payload.len())),
{
    let b = encode_envelope(schema_id, payload) + trailing;
    lemma_be16_decode(schema_id);
    lemma_be16_decode(payload.len() as u16);
    assert(u16_at(b, 0) == u16_at(be16(schema_id), 0));
    assert(u16_at(b, 2) == u16_at(be16(payload.len() as u16), 0));
    assert(b.subrange(4, 4 + payload.len() as int) =~= payload);
}

/// Human-readable name of a control schema id.
pub fn schema_name(id: u16) -> (r: &'static str)
    ensures
        id == SCHEMA_TWIST ==> r@ == "twist"@,
        id == SCHEMA_JOINT_DELTA ==> r@ == "joint_delta"@,
        id == SCHEMA_GAMEPAD ==> r@ == "gamepad"@,
        SCHEMA_GAMEPAD < id && id >= SCHEMA_EXPERIMENTAL_BASE ==> r@ == "experimental"@,
        (id == 0 || SCHEMA_GAMEPAD < id < SCHEMA_EXPERIMENTAL_BASE) ==> r@ == "unknown"@,
{
    if id == SCHEMA_TWIST {
        "twist"
    } else if id == SCHEMA_JOINT_DELTA {
        "joint_delta"
    } else if id == SCHEMA_GAMEPAD {
        "gamepad"
    } else if id >= SCHEMA_EXPERIMENTAL_BASE {
        "experimental"
    } else {
        "unknown"
    }
}

} // verus!
