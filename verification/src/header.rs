//! LTP1 fixed header (big-endian on the wire).

use vstd::prelude::*;

use crate::error::WireError;
use crate::wire::{
    lemma_be16_decode, lemma_be16_encode, lemma_be32_decode, lemma_be32_encode, lemma_be64_decode,
    lemma_be64_encode, be16, be32, be64, push_all, push_be16, push_be32, push_be64, read_u16, read_u32, read_u64,
    u16_at, u32_at, u64_at,
};

verus! {

pub const LTP_MAGIC: u32 = 0x4C54_5031;

pub const LTP_VERSION: u8 = 1;

pub const FIXED_HEADER_LEN: usize = 32;

pub const MAX_HEADER_DWORDS: u8 = 15;

/// Largest extension a header can carry: `MAX_HEADER_DWORDS * 4 - FIXED_HEADER_LEN`.
pub const MAX_EXTENSION_LEN: usize = 28;

pub const FLAG_FEC: u8 = 1;

pub const FLAG_KEYFRAME: u8 = 2;

pub const FLAG_DUPLICATE_SEND: u8 = 4;

/// Scheduling class of a datagram; lower discriminants are more urgent.
#[derive(Clone, Copy, Debug, PartialEq, Eq, Hash, Structural)]
pub enum PriorityClass {
    Control,
    Haptic,
    Video,
    Telemetry,
}

impl PriorityClass {
    pub open spec fn spec_to_u8(self) -> u8 {
        match self {
            PriorityClass::Control => 0,
            PriorityClass::Haptic => 1,
            PriorityClass::Video => 2,
            PriorityClass::Telemetry => 3,
        }
    }

    /// The on-wire discriminant.
    #[verifier::when_used_as_spec(spec_to_u8)]
    pub fn to_u8(self) -> (r: u8)
        ensures
            r == self.spec_to_u8(),
    {
        match self {
            PriorityClass::Control => 0,
            PriorityClass::Haptic => 1,
            PriorityClass::Video => 2,
            PriorityClass::Telemetry => 3,
        }
    }

    pub open spec fn spec_from_u8(v: u8) -> Option<PriorityClass> {
        if v == 0 {
            Some(PriorityClass::Control)
        } else if v == 1 {
            Some(PriorityClass::Haptic)
        } else if v == 2 {
            Some(PriorityClass::Video)
        } else if v == 3 {
            Some(PriorityClass::Telemetry)
        } else {
            None
        }
    }

    /// Decodes an on-wire discriminant.
    pub fn try_from_u8(v: u8) -> (r: Result<PriorityClass, ()>)
        ensures
            match PriorityClass::spec_from_u8(v) {
                Some(p) => r == Ok::<PriorityClass, ()>(p),
                None => r == Err::<PriorityClass, ()>(()),
            },
    {
        match v {
            0 => Ok(PriorityClass::Control),
            1 => Ok(PriorityClass::Haptic),
            2 => Ok(PriorityClass::Video),
            3 => Ok(PriorityClass::Telemetry),
            _ => Err(()),
        }
    }
}

impl TryFrom<u8> for PriorityClass {
    type Error = ();

    /// Decodes an on-wire discriminant.
    fn try_from(v: u8) -> (r: Result<PriorityClass, ()>) {
        PriorityClass::try_from_u8(v)
    }
}

impl vstd::std_specs::convert::TryFromSpecImpl<u8> for PriorityClass {
    open spec fn obeys_try_from_spec() -> bool {
        true
    }

    open spec fn try_from_spec(v: u8) -> Result<PriorityClass, ()> {
        match PriorityClass::spec_from_u8(v) {
            Some(p) => Ok(p),
            None => Err(()),
        }
    }
}

/// Kind of payload a datagram carries.
#[derive(Clone, Copy, Debug, PartialEq, Eq, Hash, Structural)]
pub enum PayloadType {
    Control,
    Haptic,
    VideoSlice,
    Telemetry,
    FecShard,
    AckMeta,
}

impl PayloadType {
    pub open spec fn spec_to_u8(self) -> u8 {
        match self {
            PayloadType::Control => 0,
            PayloadType::Haptic => 1,
            PayloadType::VideoSlice => 2,
            PayloadType::Telemetry => 3,
            PayloadType::FecShard => 4,
            PayloadType::AckMeta => 5,
        }
    }

    /// The on-wire discriminant.
    #[verifier::when_used_as_spec(spec_to_u8)]
    pub fn to_u8(self) -> (r: u8)
        ensures
            r == self.spec_to_u8(),
    {
        match self {
            PayloadType::Control => 0,
            PayloadType::Haptic => 1,
            PayloadType::VideoSlice => 2,
            PayloadType::Telemetry => 3,
            PayloadType::FecShard => 4,
            PayloadType::AckMeta => 5,
        }
    }

    pub open spec fn spec_from_u8(v: u8) -> Option<PayloadType> {
        if v == 0 {
            Some(PayloadType::Control)
        } else if v == 1 {
            Some(PayloadType::Haptic)
        } else if v == 2 {
            Some(PayloadType::VideoSlice)
        } else if v == 3 {
            Some(PayloadType::Telemetry)
        } else if v == 4 {
            Some(PayloadType::FecShard)
        } else if v == 5 {
            Some(PayloadType::AckMeta)
        } else {
            None
        }
    }

    /// Decodes an on-wire discriminant.
    pub fn try_from_u8(v: u8) -> (r: Result<PayloadType, ()>)
        ensures
            match PayloadType::spec_from_u8(v) {
                Some(p) => r == Ok::<PayloadType, ()>(p),
                None => r == Err::<PayloadType, ()>(()),
            },
    {
        match v {
            0 => Ok(PayloadType::Control),
            1 => Ok(PayloadType::Haptic),
            2 => Ok(PayloadType::VideoSlice),
            3 => Ok(PayloadType::Telemetry),
            4 => Ok(PayloadType::FecShard),
            5 => Ok(PayloadType::AckMeta),
            _ => Err(()),
        }
    }
}

impl TryFrom<u8> for PayloadType {
    type Error = ();

    /// Decodes an on-wire discriminant.
    fn try_from(v: u8) -> (r: Result<PayloadType, ()>) {
        PayloadType::try_from_u8(v)
    }
}

impl vstd::std_specs::convert::TryFromSpecImpl<u8> for PayloadType {
    open spec fn obeys_try_from_spec() -> bool {
        true
    }

    open spec fn try_from_spec(v: u8) -> Result<PayloadType, ()> {
        match PayloadType::spec_from_u8(v) {
            Some(p) => Ok(p),
            None => Err(()),
        }
    }
}

/// The LTP1 header; `extension` follows the fixed 32 bytes on the wire.
#[derive(Clone, Debug, PartialEq, Eq)]
pub struct LtpHeader {
    pub version: u8,
    /// Total header size in 4-byte words (includes fixed + extension).
    pub hdr_len_dw: u8,
    pub priority: PriorityClass,
    pub payload_type: PayloadType,
    pub flags: u8,
    pub stream_id: u16,
    pub path_tag: u16,
    pub seq: u32,
    pub timestamp_ns: u64,
    pub frame_id: u16,
    pub slice_id: u8,
    pub slice_count: u8,
    pub payload_len: u16,
    pub fec_group_id: u8,
    pub fec_index: u8,
    pub extension: Vec<u8>,
}

/// Mathematical model of an [`LtpHeader`].
pub struct HeaderView {
    pub version: u8,
    pub hdr_len_dw: u8,
    pub priority: PriorityClass,
    pub payload_type: PayloadType,
    pub flags: u8,
    pub stream_id: u16,
    pub path_tag: u16,
    pub seq: u32,
    pub timestamp_ns: u64,
    pub frame_id: u16,
    pub slice_id: u8,
    pub slice_count: u8,
    pub payload_len: u16,
    pub fec_group_id: u8,
    pub fec_index: u8,
    pub extension: Seq<u8>,
}

impl View for LtpHeader {
    type V = HeaderView;

    open spec fn view(&self) -> HeaderView {
        HeaderView {
            version: self.version,
            hdr_len_dw: self.hdr_len_dw,
            priority: self.priority,
            payload_type: self.payload_type,
            flags: self.flags,
            stream_id: self.stream_id,
            path_tag: self.path_tag,
            seq: self.seq,
            timestamp_ns: self.timestamp_ns,
            frame_id: self.frame_id,
            slice_id: self.slice_id,
            slice_count: self.slice_count,
            payload_len: self.payload_len,
            fec_group_id: self.fec_group_id,
            fec_index: self.fec_index,
            extension: self.extension@,
        }
    }
}

/// The header that `LtpHeader::default()` produces.
pub open spec fn default_header() -> HeaderView {
    HeaderView {
        version: LTP_VERSION,
        hdr_len_dw: 8,
        priority: PriorityClass::Control,
        payload_type: PayloadType::Control,
        flags: 0,
        stream_id: 0,
        path_tag: 0,
        seq: 0,
        timestamp_ns: 0,
        frame_id: 0,
        slice_id: 0,
        slice_count: 0,
        payload_len: 0,
        fec_group_id: 0,
        fec_index: 0,
        extension: Seq::empty(),
    }
}

impl Default for LtpHeader {
    fn default() -> (h: Self)
        ensures
            h@ == default_header(),
    {
        LtpHeader {
            version: LTP_VERSION,
            hdr_len_dw: 8,
            priority: PriorityClass::Control,
            payload_type: PayloadType::Control,
            flags: 0,
            stream_id: 0,
            path_tag: 0,
            seq: 0,
            timestamp_ns: 0,
            frame_id: 0,
            slice_id: 0,
            slice_count: 0,
            payload_len: 0,
            fec_group_id: 0,
            fec_index: 0,
            extension: Vec::new(),
        }
    }
}

/// Number of zero bytes that pad an extension of `n` bytes to a 4-byte boundary.
pub open spec fn pad_len(n: nat) -> nat {
    ((4 - (n % 4) as int) % 4) as nat
}

/// The extension as written on the wire: zero-padded to a multiple of 4 bytes.
pub open spec fn padded_extension(ext: Seq<u8>) -> Seq<u8> {
    ext + Seq::new(pad_len(ext.len()), |i: int| 0u8)
}

/// Header length in 4-byte words for an extension of `ext_len` bytes.
pub open spec fn header_dwords(ext_len: nat) -> u8 {
    (8 + (ext_len + 3) / 4) as u8
}

/// Byte 4 of the header: version in the high nibble, header words in the low nibble.
pub open spec fn version_byte(version: u8, dw: u8) -> u8 {
    ((version & 0x0Fu8) << 4u8) | (dw & 0x0Fu8)
}

/// The fixed 32-byte part of the encoding, with `dw` as the header length field.
pub open spec fn encode_fixed(h: HeaderView, dw: u8) -> Seq<u8> {
    be32(LTP_MAGIC) + seq![version_byte(h.version, dw)] + seq![h.priority.spec_to_u8()] + seq![
        h.payload_type.spec_to_u8(),
    ] + seq![h.flags] + be16(h.stream_id) + be16(h.path_tag) + be32(h.seq) + be64(h.timestamp_ns)
        + be16(h.frame_id) + seq![h.slice_id] + seq![h.slice_count] + be16(h.payload_len) + seq![
        h.fec_group_id,
    ] + seq![h.fec_index]
}

/// The bytes `write_into` produces for `h`. The stored `hdr_len_dw` is ignored: the
/// length field is recomputed from the extension.
pub open spec fn encode_header(h: HeaderView) -> Seq<u8> {
    encode_fixed(h, header_dwords(h.extension.len())) + padded_extension(h.extension)
}

/// What `parse` returns for `buf`: the header and the number of header bytes.
pub open spec fn parse_header(buf: Seq<u8>) -> Result<(HeaderView, nat), WireError> {
    if buf.len() < FIXED_HEADER_LEN {
        Err(WireError::BufferTooSmall)
    } else if u32_at(buf, 0) != LTP_MAGIC {
        Err(WireError::BadMagic)
    } else if (buf[4] >> 4u8) & 0x0Fu8 != LTP_VERSION {
        Err(WireError::UnsupportedVersion)
    } else if buf[4] & 0x0Fu8 < 8 {
        Err(WireError::HdrLenTooSmall)
    } else if buf.len() < (buf[4] & 0x0Fu8) as nat * 4 {
        Err(WireError::IncompleteHeader)
    } else if PriorityClass::spec_from_u8(buf[5]) is None {
        Err(WireError::BadPriority)
    } else if PayloadType::spec_from_u8(buf[6]) is None {
        Err(WireError::BadPayloadType)
    } else {
        let dw = buf[4] & 0x0Fu8;
        let total = dw as nat * 4;
        Ok(
            (
                HeaderView {
                    version: (buf[4] >> 4u8) & 0x0Fu8,
                    hdr_len_dw: dw,
                    priority: PriorityClass::spec_from_u8(buf[5]).unwrap(),
                    payload_type: PayloadType::spec_from_u8(buf[6]).unwrap(),
                    flags: buf[7],
                    stream_id: u16_at(buf, 8),
                    path_tag: u16_at(buf, 10),
                    seq: u32_at(buf, 12),
                    timestamp_ns: u64_at(buf, 16),
                    frame_id: u16_at(buf, 24),
                    slice_id: buf[26],
                    slice_count: buf[27],
                    payload_len: u16_at(buf, 28),
                    fec_group_id: buf[30],
                    fec_index: buf[31],
                    extension: buf.subrange(32, total as int),
                },
                total,
            ),
        )
    }
}

/// The deadline carried in the first 8 extension bytes, or 0 without one.
pub open spec fn header_deadline(h: HeaderView) -> u64 {
    if h.extension.len() >= 8 {
        u64_at(h.extension, 0)
    } else {
        0
    }
}

/// Bytes of header that `hdr_len_dw` declares.
pub open spec fn header_bytes(h: HeaderView) -> nat {
    h.hdr_len_dw as nat * 4
}

/// The byte layout of the fixed part: which field occupies which offsets.
pub proof fn lemma_encode_fixed_layout(h: HeaderView, dw: u8)
    ensures
        encode_fixed(h, dw).len() == FIXED_HEADER_LEN,
        encode_fixed(h, dw).subrange(0, 4) == be32(LTP_MAGIC),
        encode_fixed(h, dw)[4] == version_byte(h.version, dw),
        encode_fixed(h, dw)[5] == h.priority.spec_to_u8(),
        encode_fixed(h, dw)[6] == h.payload_type.spec_to_u8(),
        encode_fixed(h, dw)[7] == h.flags,
        encode_fixed(h, dw).subrange(8, 10) == be16(h.stream_id),
        encode_fixed(h, dw).subrange(10, 12) == be16(h.path_tag),
        encode_fixed(h, dw).subrange(12, 16) == be32(h.seq),
        encode_fixed(h, dw).subrange(16, 24) == be64(h.timestamp_ns),
        encode_fixed(h, dw).subrange(24, 26) == be16(h.frame_id),
        encode_fixed(h, dw)[26] == h.slice_id,
        encode_fixed(h, dw)[27] == h.slice_count,
        encode_fixed(h, dw).subrange(28, 30) == be16(h.payload_len),
        encode_fixed(h, dw)[30] == h.fec_group_id,
        encode_fixed(h, dw)[31] == h.fec_index,
{
    let e = encode_fixed(h, dw);
    assert(e.subrange(0, 4) =~= be32(LTP_MAGIC));
    assert(e.subrange(8, 10) =~= be16(h.stream_id));
    assert(e.subrange(10, 12) =~= be16(h.path_tag));
    assert(e.subrange(12, 16) =~= be32(h.seq));
    assert(e.subrange(16, 24) =~= be64(h.timestamp_ns));
    assert(e.subrange(24, 26) =~= be16(h.frame_id));
    assert(e.subrange(28, 30) =~= be16(h.payload_len));
}

proof fn lemma_u16_at_sub(s: Seq<u8>, i: int)
    requires
        0 <= i,
        i + 2 <= s.len(),
    ensures
        u16_at(s, i) == u16_at(s.subrange(i, i + 2), 0),
{
}

proof fn lemma_u32_at_sub(s: Seq<u8>, i: int)
    requires
        0 <= i,
        i + 4 <= s.len(),
    ensures
        u32_at(s, i) == u32_at(s.subrange(i, i + 4), 0),
{
}

proof fn lemma_u64_at_sub(s: Seq<u8>, i: int)
    requires
        0 <= i,
        i + 8 <= s.len(),
    ensures
        u64_at(s, i) == u64_at(s.subrange(i, i + 8), 0),
{
}

proof fn lemma_version_byte_fields(v: u8, dw: u8)
    requires
        v < 16,
        dw < 16,
    ensures
        (version_byte(v, dw) >> 4u8) & 0x0Fu8 == v,
        version_byte(v, dw) & 0x0Fu8 == dw,
{
    assert((((v & 0x0Fu8) << 4u8) | (dw & 0x0Fu8)) >> 4u8 & 0x0Fu8 == v && (((v & 0x0Fu8) << 4u8)
        | (dw & 0x0Fu8)) & 0x0Fu8 == dw) by (bit_vector)
        requires
            v < 16,
            dw < 16,
    ;
}

proof fn lemma_version_byte_of(b: u8)
    ensures
        version_byte((b >> 4u8) & 0x0Fu8, b & 0x0Fu8) == b,
{
    assert(((((b >> 4u8) & 0x0Fu8) & 0x0Fu8) << 4u8) | ((b & 0x0Fu8) & 0x0Fu8) == b)
        by (bit_vector);
}

/// The header that parsing the bytes of `h` yields: `h` with the length field
/// recomputed and the extension zero-padded.
pub open spec fn normalized_header(h: HeaderView) -> HeaderView {
    HeaderView {
        hdr_len_dw: header_dwords(h.extension.len()),
        extension: padded_extension(h.extension),
        ..h
    }
}

/// Parsing what `write_into` wrote gives the header back (with its length field and
/// padded extension as written), whatever bytes follow it.
pub proof fn lemma_parse_after_write(h: HeaderView, rest: Seq<u8>)
    requires
        h.version == LTP_VERSION,
        h.extension.len() <= MAX_EXTENSION_LEN,
    ensures
        parse_header(encode_header(h) + rest) == Ok::<(HeaderView, nat), WireError>(
            (normalized_header(h), encode_header(h).len()),
        ),
{
    let dw = header_dwords(h.extension.len());
    let fixed = encode_fixed(h, dw);
    let ext = padded_extension(h.extension);
    let e = encode_header(h);
    let buf = e + rest;
    lemma_encode_fixed_layout(h, dw);
    assert(ext.len() == dw as nat * 4 - 32);
    assert(e.len() == dw as nat * 4);
    assert forall|i: int| 0 <= i < e.len() implies buf[i] == e[i] by {}
    assert forall|i: int| 0 <= i < 32 implies e[i] == fixed[i] by {}
    assert(buf.subrange(0, 4) =~= fixed.subrange(0, 4));
    assert(buf.subrange(8, 10) =~= fixed.subrange(8, 10));
    assert(buf.subrange(10, 12) =~= fixed.subrange(10, 12));
    assert(buf.subrange(12, 16) =~= fixed.subrange(12, 16));
    assert(buf.subrange(16, 24) =~= fixed.subrange(16, 24));
    assert(buf.subrange(24, 26) =~= fixed.subrange(24, 26));
    assert(buf.subrange(28, 30) =~= fixed.subrange(28, 30));
    lemma_u32_at_sub(buf, 0);
    lemma_be32_decode(LTP_MAGIC);
    lemma_version_byte_fields(h.version, dw);
    lemma_u16_at_sub(buf, 8);
    lemma_be16_decode(h.stream_id);
    lemma_u16_at_sub(buf, 10);
    lemma_be16_decode(h.path_tag);
    lemma_u32_at_sub(buf, 12);
    lemma_be32_decode(h.seq);
    lemma_u64_at_sub(buf, 16);
    lemma_be64_decode(h.timestamp_ns);
    lemma_u16_at_sub(buf, 24);
    lemma_be16_decode(h.frame_id);
    lemma_u16_at_sub(buf, 28);
    lemma_be16_decode(h.payload_len);
    assert(buf.subrange(32, dw as int * 4) =~= ext);
    assert(PriorityClass::spec_from_u8(h.priority.spec_to_u8()) == Some(h.priority));
    assert(PayloadType::spec_from_u8(h.payload_type.spec_to_u8()) == Some(h.payload_type));
}

/// A parsed header's extension always fits the header length field.
pub proof fn lemma_parsed_extension_fits(buf: Seq<u8>)
    requires
        parse_header(buf) is Ok,
    ensures
        parse_header(buf)->Ok_0.0.extension.len() <= MAX_EXTENSION_LEN,
        parse_header(buf)->Ok_0.0.version == LTP_VERSION,
        parse_header(buf)->Ok_0.0.extension.len() % 4 == 0,
{
    let b = buf[4];
    assert(b & 0x0Fu8 <= 15) by (bit_vector);
}

/// A parsed header is its own normalization: writing it back keeps the length field
/// and the extension as they were.
pub proof fn lemma_parsed_header_normalized(buf: Seq<u8>)
    requires
        parse_header(buf) is Ok,
    ensures
        normalized_header(parse_header(buf)->Ok_0.0) == parse_header(buf)->Ok_0.0,
{
    let v = parse_header(buf)->Ok_0.0;
    lemma_parsed_extension_fits(buf);
    assert(padded_extension(v.extension) =~= v.extension);
}

/// Writing a parsed header reproduces exactly the header bytes it was parsed from.
pub proof fn lemma_write_after_parse(buf: Seq<u8>)
    requires
        parse_header(buf) is Ok,
    ensures
        encode_header(parse_header(buf)->Ok_0.0) == buf.subrange(
            0,
            parse_header(buf)->Ok_0.1 as int,
        ),
{
    let (v, n) = parse_header(buf)->Ok_0;
    let dw = buf[4] & 0x0Fu8;
    assert(v.extension.len() == dw as nat * 4 - 32);
    assert(pad_len(v.extension.len()) == 0);
    assert(header_dwords(v.extension.len()) == dw);
    assert(padded_extension(v.extension) =~= v.extension);
    lemma_encode_fixed_layout(v, dw);
    let fixed = encode_fixed(v, dw);
    lemma_version_byte_of(buf[4]);
    lemma_be32_encode(buf, 0);
    lemma_be16_encode(buf, 8);
    lemma_be16_encode(buf, 10);
    lemma_be32_encode(buf, 12);
    lemma_be64_encode(buf, 16);
    lemma_be16_encode(buf, 24);
    lemma_be16_encode(buf, 28);
    assert(PriorityClass::spec_from_u8(buf[5]).unwrap().spec_to_u8() == buf[5]);
    assert(PayloadType::spec_from_u8(buf[6]).unwrap().spec_to_u8() == buf[6]);
    assert forall|i: int| 0 <= i < 32 implies fixed[i] == buf[i] by {
        if 0 <= i < 4 {
            assert(fixed[i] == fixed.subrange(0, 4)[i]);
            assert(buf[i] == buf.subrange(0, 4)[i]);
        } else if 8 <= i < 10 {
            assert(fixed[i] == fixed.subrange(8, 10)[i - 8]);
            assert(buf[i] == buf.subrange(8, 10)[i - 8]);
        } else if 10 <= i < 12 {
            assert(fixed[i] == fixed.subrange(10, 12)[i - 10]);
            assert(buf[i] == buf.subrange(10, 12)[i - 10]);
        } else if 12 <= i < 16 {
            assert(fixed[i] == fixed.subrange(12, 16)[i - 12]);
            assert(buf[i] == buf.subrange(12, 16)[i - 12]);
        } else if 16 <= i < 24 {
            assert(fixed[i] == fixed.subrange(16, 24)[i - 16]);
            assert(buf[i] == buf.subrange(16, 24)[i - 16]);
        } else if 24 <= i < 26 {
            assert(fixed[i] == fixed.subrange(24, 26)[i - 24]);
            assert(buf[i] == buf.subrange(24, 26)[i - 24]);
        } else if 28 <= i < 30 {
            assert(fixed[i] == fixed.subrange(28, 30)[i - 28]);
            assert(buf[i] == buf.subrange(28, 30)[i - 28]);
        }
    }
    assert(encode_header(v) =~= buf.subrange(0, n as int));
}

impl LtpHeader {
    /// Header size in bytes as declared by `hdr_len_dw`.
    pub fn header_bytes_len(&self) -> (r: usize)
        ensures
            r == header_bytes(self@),
    {
        self.hdr_len_dw as usize * 4
    }

    /// Declared extension size: header bytes beyond the fixed 32, or 0.
    pub fn extension_len(&self) -> (r: usize)
        ensures
            r == if header_bytes(self@) > FIXED_HEADER_LEN {
                (header_bytes(self@) - FIXED_HEADER_LEN) as nat
            } else {
                0
            },
    {
        self.header_bytes_len().saturating_sub(FIXED_HEADER_LEN)
    }

    /// Writes the header into `out`, replacing its contents. The length field is
    /// recomputed from the extension, which is zero-padded to a 4-byte boundary.
    pub fn write_into(&self, out: &mut Vec<u8>)
        requires
            self.extension@.len() <= MAX_EXTENSION_LEN,
        ensures
            final(out)@ == encode_header(self@),
    {
        let ext = self.extension.len();
        let total = FIXED_HEADER_LEN + ext;
        let mut dw = (total + 3) / 4;
        if dw > MAX_HEADER_DWORDS as usize {
            dw = MAX_HEADER_DWORDS as usize;
        }
        let dw8 = dw as u8;
        assert(dw8 == header_dwords(ext as nat));
        let ghost h = self@;
        out.clear();
        push_be32(out, LTP_MAGIC);
        out.push(((self.version & 0x0Fu8) << 4u8) | (dw8 & 0x0Fu8));
        out.push(self.priority.to_u8());
        out.push(self.payload_type.to_u8());
        out.push(self.flags);
        assert(out@ =~= be32(LTP_MAGIC) + seq![version_byte(h.version, dw8)] + seq![
            h.priority.spec_to_u8(),
        ] + seq![h.payload_type.spec_to_u8()] + seq![h.flags]);
        push_be16(out, self.stream_id);
        push_be16(out, self.path_tag);
        push_be32(out, self.seq);
        push_be64(out, self.timestamp_ns);
        push_be16(out, self.frame_id);
        let ghost mid = out@;
        out.push(self.slice_id);
        out.push(self.slice_count);
        assert(out@ =~= mid + seq![h.slice_id] + seq![h.slice_count]);
        push_be16(out, self.payload_len);
        let ghost mid2 = out@;
        out.push(self.fec_group_id);
        out.push(self.fec_index);
        assert(out@ =~= mid2 + seq![h.fec_group_id] + seq![h.fec_index]);
        assert(out@ == encode_fixed(h, dw8));
        let ghost fixed = out@;
        push_all(out, self.extension.as_slice());
        let pad = dw * 4 - total;
        assert(pad == pad_len(ext as nat));
        let mut i: usize = 0;
        while i < pad
            invariant
                i <= pad,
                out@ == fixed + h.extension + Seq::new(i as nat, |j: int| 0u8),
            decreases pad - i,
        {
            out.push(0u8);
            i = i + 1;
            assert(out@ =~= fixed + h.extension + Seq::new(i as nat, |j: int| 0u8));
        }
        assert(out@ =~= encode_fixed(h, dw8) + padded_extension(h.extension));
    }

    /// Parses a header from the start of `buf`, returning it with its length in bytes.
    pub fn parse(buf: &[u8]) -> (r: Result<(LtpHeader, usize), WireError>)
        ensures
            match r {
                Ok((h, n)) => parse_header(buf@) == Ok::<(HeaderView, nat), WireError>(
                    (h@, n as nat),
                ),
                Err(e) => parse_header(buf@) == Err::<(HeaderView, nat), WireError>(e),
            },
    {
        if buf.len() < FIXED_HEADER_LEN {
            return Err(WireError::BufferTooSmall);
        }
        let magic = read_u32(buf, 0);
        if magic != LTP_MAGIC {
            return Err(WireError::BadMagic);
        }
        let b4 = buf[4];
        let version = (b4 >> 4u8) & 0x0Fu8;
        if version != LTP_VERSION {
            return Err(WireError::UnsupportedVersion);
        }
        let hdr_len_dw = b4 & 0x0Fu8;
        if hdr_len_dw < 8 {
            return Err(WireError::HdrLenTooSmall);
        }
        let total_hdr = hdr_len_dw as usize * 4;
        if buf.len() < total_hdr {
            return Err(WireError::IncompleteHeader);
        }
        let priority = match PriorityClass::try_from_u8(buf[5]) {
            Ok(p) => p,
            Err(_) => {
                return Err(WireError::BadPriority);
            },
        };
        let payload_type = match PayloadType::try_from_u8(buf[6]) {
            Ok(p) => p,
            Err(_) => {
                return Err(WireError::BadPayloadType);
            },
        };
        let mut extension: Vec<u8> = Vec::new();
        push_all(&mut extension, &buf[FIXED_HEADER_LEN..total_hdr]);
        let h = LtpHeader {
            version,
            hdr_len_dw,
            priority,
            payload_type,
            flags: buf[7],
            stream_id: read_u16(buf, 8),
            path_tag: read_u16(buf, 10),
            seq: read_u32(buf, 12),
            timestamp_ns: read_u64(buf, 16),
            frame_id: read_u16(buf, 24),
            slice_id: buf[26],
            slice_count: buf[27],
            payload_len: read_u16(buf, 28),
            fec_group_id: buf[30],
            fec_index: buf[31],
            extension,
        };
        assert(h@.extension =~= buf@.subrange(32, total_hdr as int));
        Ok((h, total_hdr))
    }

    /// Checks that a datagram of `datagram_len` bytes holds the declared header and payload.
    pub fn validate_total_len(&self, datagram_len: usize) -> (r: Result<(), WireError>)
        ensures
            r == (if datagram_len < header_bytes(self@) + self.payload_len {
                Err::<(), WireError>(WireError::DatagramTooShort)
            } else {
                Ok(())
            }),
    {
        let hdr = self.header_bytes_len();
        let need = hdr.saturating_add(self.payload_len as usize);
        if datagram_len < need {
            return Err(WireError::DatagramTooShort);
        }
        Ok(())
    }

    /// Frame/slice deadline (ns), stored in the first 8 extension bytes when present.
    pub fn deadline_ns(&self) -> (r: u64)
        ensures
            r == header_deadline(self@),
    {
        if self.extension.len() >= 8 {
            read_u64(self.extension.as_slice(), 0)
        } else {
            0
        }
    }

    /// Replaces the extension by the 8 big-endian bytes of `deadline_ns`.
    pub fn set_deadline_extension(&mut self, deadline_ns: u64)
        ensures
            final(self)@ == (HeaderView { extension: be64(deadline_ns), ..old(self)@ }),
    {
        let mut ext: Vec<u8> = Vec::new();
        push_be64(&mut ext, deadline_ns);
        assert(ext@ =~= be64(deadline_ns));
        self.extension = ext;
    }
}

} // verus!
