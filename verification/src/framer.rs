//! Build on-wire datagrams from `LtpHeader` + payload, and split them again.

use vstd::prelude::*;

use crate::error::WireError;
use crate::header::{
    encode_header, header_bytes, lemma_parse_after_write, normalized_header, parse_header,
    HeaderView, LtpHeader, LTP_VERSION, MAX_EXTENSION_LEN,
};
use crate::wire::push_all;

verus! {

/// What `split_header_payload` returns for `d`: the header and the payload it declares.
pub open spec fn split_datagram(d: Seq<u8>) -> Result<(HeaderView, Seq<u8>), WireError> {
    match parse_header(d) {
        Err(e) => Err(e),
        Ok((h, n)) => if d.len() < header_bytes(h) + h.payload_len {
            Err(WireError::DatagramTooShort)
        } else {
            Ok((h, d.subrange(n as int, n + h.payload_len)))
        },
    }
}

/// Header bytes followed by the payload; refused when the payload length differs from
/// the header's `payload_len`.
pub fn frame_datagram(header: &LtpHeader, payload: &[u8]) -> (r: Result<Vec<u8>, WireError>)
    requires
        header.extension@.len() <= MAX_EXTENSION_LEN,
    ensures
        match r {
            Ok(d) => payload@.len() == header.payload_len && d@ == encode_header(header@)
                + payload@,
            Err(e) => payload@.len() != header.payload_len && e == WireError::PayloadLenMismatch,
        },
{
    if payload.len() != header.payload_len as usize {
        return Err(WireError::PayloadLenMismatch);
    }
    let mut out: Vec<u8> = Vec::new();
    header.write_into(&mut out);
    push_all(&mut out, payload);
    Ok(out)
}

/// Parses the header of `datagram`, checks the declared payload fits, and returns the
/// header with the payload bytes (any bytes after them are ignored).
pub fn split_header_payload(datagram: &[u8]) -> (r: Result<(LtpHeader, &[u8]), WireError>)
    ensures
        match r {
            Ok((h, p)) => split_datagram(datagram@) == Ok::<(HeaderView, Seq<u8>), WireError>(
                (h@, p@),
            ),
            Err(e) => split_datagram(datagram@) == Err::<(HeaderView, Seq<u8>), WireError>(e),
        },
{
    let (h, hdr_len) = match LtpHeader::parse(datagram) {
        Ok(x) => x,
        Err(e) => {
            return Err(e);
        },
    };
    match h.validate_total_len(datagram.len()) {
        Ok(()) => {},
        Err(e) => {
            return Err(e);
        },
    }
    let end = hdr_len + h.payload_len as usize;
    Ok((h, &datagram[hdr_len..end]))
}

/// Splitting a framed datagram gives back the header (as written) and the payload,
/// whatever bytes follow the payload.
pub proof fn lemma_split_after_frame(h: HeaderView, payload: Seq<u8>, trailing: Seq<u8>)
    requires
        h.version == LTP_VERSION,
        h.extension.len() <= MAX_EXTENSION_LEN,
        payload.len() == h.payload_len,
    ensures
        split_datagram(encode_header(h) + payload + trailing) == Ok::<
            (HeaderView, Seq<u8>),
            WireError,
        >((normalized_header(h), payload)),
{
    let e = encode_header(h);
    let d = e + payload + trailing;
    assert(d =~= e + (payload + trailing));
    lemma_parse_after_write(h, payload + trailing);
    assert(d.subrange(e.len() as int, e.len() + h.payload_len) =~= payload);
}

} // verus!
