//! Datagram construction for the session send path.

use vstd::prelude::*;

use crate::control_envelope::{encode_envelope, ControlEnvelope};
use crate::error::WireError;
use crate::framer::{frame_datagram, lemma_split_after_frame, split_datagram, split_header_payload};
use crate::header::{
    default_header, encode_header, lemma_parsed_extension_fits, lemma_parsed_header_normalized,
    normalized_header, parse_header, HeaderView, LtpHeader, PayloadType, PriorityClass,
    FIXED_HEADER_LEN, FLAG_DUPLICATE_SEND, LTP_MAGIC, LTP_VERSION, MAX_EXTENSION_LEN,
};
use crate::receive::{
    dedup_admit, dedup_key, reorder_before, reorder_push, routes_to_reorder, video_ingest,
    EventView, ReceiveDemux, ReceivedEvent, ReorderView, VideoView,
};
use crate::scheduler::{PacketView, ScheduledPacket};
use crate::wire::{push_all, u32_at, views};

verus! {

/// `base` marked as a control datagram carrying `len` payload bytes (length truncated
/// to 16 bits).
pub open spec fn control_header(base: HeaderView, len: nat) -> HeaderView {
    HeaderView {
        payload_len: len as u16,
        payload_type: PayloadType::Control,
        priority: PriorityClass::Control,
        ..base
    }
}

/// Frames control bytes (an encoded envelope) behind `base`, after marking `base` as a
/// control datagram of that length. Fails when the payload does not fit the 16-bit length.
pub fn build_control_datagram(base: &mut LtpHeader, control_payload: &[u8]) -> (r: Result<
    Vec<u8>,
    WireError,
>)
    requires
        old(base).extension@.len() <= MAX_EXTENSION_LEN,
    ensures
        final(base)@ == control_header(old(base)@, control_payload@.len()),
        match r {
            Ok(d) => control_payload@.len() <= 0xFFFF && d@ == encode_header(final(base)@)
                + control_payload@,
            Err(e) => control_payload@.len() > 0xFFFF && e == WireError::PayloadLenMismatch,
        },
{
    base.payload_len = control_payload.len() as u16;
    base.payload_type = PayloadType::Control;
    base.priority = PriorityClass::Control;
    frame_datagram(base, control_payload)
}

/// The header a path rewrites before sending: its own path tag, and the duplicate-send
/// flag when the datagram is replicated on every path.
pub open spec fn path_header(h: HeaderView, path_tag: u16, duplicate: bool) -> HeaderView {
    HeaderView {
        path_tag,
        flags: if duplicate {
            h.flags | FLAG_DUPLICATE_SEND
        } else {
            h.flags
        },
        ..h
    }
}

/// Re-frames a queued datagram for one path: same payload, the path's tag, and the
/// duplicate-send flag in duplicate mode. Fails as `split_header_payload` does.
pub fn prepare_path_datagram(datagram: &[u8], path_tag: u16, duplicate: bool) -> (r: Result<
    Vec<u8>,
    WireError,
>)
    ensures
        match split_datagram(datagram@) {
            Err(e) => r == Err::<Vec<u8>, WireError>(e),
            Ok((h, p)) => r matches Ok(d) && d@ == encode_header(path_header(h, path_tag, duplicate))
                + p,
        },
{
    let (mut h, pl) = match split_header_payload(datagram) {
        Ok(x) => x,
        Err(e) => {
            return Err(e);
        },
    };
    proof {
        lemma_parsed_extension_fits(datagram@);
    }
    h.path_tag = path_tag;
    if duplicate {
        h.flags = h.flags | FLAG_DUPLICATE_SEND;
    }
    let mut buf: Vec<u8> = Vec::new();
    h.write_into(&mut buf);
    push_all(&mut buf, pl);
    Ok(buf)
}

/// Every path's copy of a datagram splits into the same payload and the same header,
/// apart from the path tag and duplicate flag: the receiver sees identical
/// `(stream_id, seq)` on every path and can tell the copies apart by `path_tag`.
pub proof fn lemma_path_copies_agree(datagram: Seq<u8>, path_tag: u16, duplicate: bool)
    requires
        split_datagram(datagram) is Ok,
    ensures
        ({
            let (h, p) = split_datagram(datagram)->Ok_0;
            split_datagram(encode_header(path_header(h, path_tag, duplicate)) + p) == Ok::<
                (HeaderView, Seq<u8>),
                WireError,
            >((path_header(h, path_tag, duplicate), p))
        }),
{
    let (h, p) = split_datagram(datagram)->Ok_0;
    lemma_parsed_extension_fits(datagram);
    lemma_parsed_header_normalized(datagram);
    let h2 = path_header(h, path_tag, duplicate);
    lemma_split_after_frame(h2, p, Seq::empty());
    assert(encode_header(h2) + p + Seq::<u8>::empty() =~= encode_header(h2) + p);
    assert(normalized_header(h2) == h2);
}

/// The header of an outgoing control command: default header with the stream,
/// sequence number and timestamp set.
pub open spec fn control_command_header(stream_id: u16, seq: u32, timestamp_ns: u64) -> HeaderView {
    HeaderView { stream_id, seq, timestamp_ns, ..default_header() }
}

/// The scheduled packet for one control command: the envelope `(schema_id, payload)`
/// framed as a control datagram on `stream_id`, due at `timestamp_ns`. Fails when the
/// envelope exceeds the 16-bit payload length.
pub fn control_packet(
    stream_id: u16,
    schema_id: u16,
    payload: &[u8],
    seq: u32,
    timestamp_ns: u64,
) -> (r: Result<ScheduledPacket, WireError>)
    ensures
        ({
            let body = encode_envelope(schema_id, payload@);
            let h = control_header(control_command_header(stream_id, seq, timestamp_ns), body.len());
            match r {
                Ok(p) => body.len() <= 0xFFFF && p@ == PacketView {
                    priority: PriorityClass::Control,
                    payload_type: PayloadType::Control,
                    datagram: encode_header(h) + body,
                    deadline_key: timestamp_ns,
                },
                Err(e) => body.len() > 0xFFFF && e == WireError::PayloadLenMismatch,
            }
        }),
{
    let mut copy: Vec<u8> = Vec::new();
    push_all(&mut copy, payload);
    let env = ControlEnvelope { schema_id, payload: copy };
    let body = env.encode();
    let mut hdr = LtpHeader::default();
    hdr.stream_id = stream_id;
    hdr.seq = seq;
    hdr.timestamp_ns = timestamp_ns;
    hdr.payload_type = PayloadType::Control;
    hdr.priority = PriorityClass::Control;
    let dg = match build_control_datagram(&mut hdr, body.as_slice()) {
        Ok(d) => d,
        Err(e) => {
            return Err(e);
        },
    };
    Ok(
        ScheduledPacket {
            priority: PriorityClass::Control,
            payload_type: PayloadType::Control,
            datagram: dg,
            deadline_key: timestamp_ns,
        },
    )
}

/// Model of a [`ReceiveDemux`]'s state: remembered keys, reorder buffers, video frames.
pub struct DemuxView {
    pub keys: Seq<u64>,
    pub reorders: Map<u16, ReorderView>,
    pub video: VideoView,
}

/// The state of `d`.
pub open spec fn demux_model(d: ReceiveDemux) -> DemuxView {
    DemuxView { keys: d.dedup.keys(), reorders: d.reorders(), video: d.video@ }
}

/// What `ReceiveDemux::handle_datagram` reports for one parsed datagram, and the state
/// after it, for a demux remembering `cap` keys and buffering `max_reorder` ahead.
pub open spec fn demux_step(
    d: DemuxView,
    cap: nat,
    max_reorder: u32,
    h: HeaderView,
    payload: Seq<u8>,
    now: u64,
    dup: bool,
) -> (EventView, DemuxView) {
    let key = dedup_key(h.stream_id, h.seq);
    if dup && d.keys.contains(key) {
        (EventView::Duplicate, d)
    } else {
        let keys = if dup {
            dedup_admit(d.keys, key, cap)
        } else {
            d.keys
        };
        if routes_to_reorder(h) {
            let (out, next) = reorder_push(
                reorder_before(d.reorders, h.stream_id, max_reorder),
                h.seq,
                payload,
            );
            (
                EventView::ControlOrdered(out),
                DemuxView { keys, reorders: d.reorders.insert(h.stream_id, next), video: d.video },
            )
        } else if h.payload_type == PayloadType::VideoSlice {
            let (frame, next) = video_ingest(d.video, h, payload, now);
            (EventView::VideoProgress(frame), DemuxView { keys, reorders: d.reorders, video: next })
        } else {
            (EventView::Telemetry(payload), DemuxView { keys, ..d })
        }
    }
}

/// Received datagrams handled in order: datagrams that do not split into header and
/// payload are skipped; the others go through [`demux_step`].
pub open spec fn demux_datagrams(
    d: DemuxView,
    cap: nat,
    max_reorder: u32,
    dgs: Seq<Seq<u8>>,
    now: u64,
    dup: bool,
) -> (Seq<EventView>, DemuxView)
    decreases dgs.len(),
{
    if dgs.len() == 0 {
        (Seq::empty(), d)
    } else {
        let (evs, d1) = demux_datagrams(d, cap, max_reorder, dgs.drop_last(), now, dup);
        match split_datagram(dgs.last()) {
            Ok((h, p)) => {
                let (e, d2) = demux_step(d1, cap, max_reorder, h, p, now, dup);
                (evs.push(e), d2)
            },
            Err(_) => (evs, d1),
        }
    }
}

/// Hands each received datagram that splits into header and payload to the demux, in
/// order, and returns what it reported for each.
pub fn drain_datagrams(
    demux: &mut ReceiveDemux,
    datagrams: &Vec<Vec<u8>>,
    now_ns: u64,
    duplicate_rx: bool,
) -> (r: Vec<ReceivedEvent>)
    requires
        old(demux).dedup.wf(),
    ensures
        final(demux).dedup.wf(),
        final(demux).dedup.capacity() == old(demux).dedup.capacity(),
        final(demux).max_reorder == old(demux).max_reorder,
        (r@.map_values(|e: ReceivedEvent| e@), demux_model(*final(demux))) == demux_datagrams(
            demux_model(*old(demux)),
            old(demux).dedup.capacity(),
            old(demux).max_reorder,
            views(datagrams@),
            now_ns,
            duplicate_rx,
        ),
{
    let ghost dgs = views(datagrams@);
    let ghost cap = demux.dedup.capacity();
    let ghost mr = demux.max_reorder;
    let ghost d0 = demux_model(*demux);
    let mut out: Vec<ReceivedEvent> = Vec::new();
    let n: usize = datagrams.len();
    let mut i: usize = 0;
    assert(out@.map_values(|e: ReceivedEvent| e@) =~= Seq::<EventView>::empty());
    assert(dgs.subrange(0, 0) =~= Seq::<Seq<u8>>::empty());
    while i < n
        invariant
            n == datagrams@.len(),
            dgs == views(datagrams@),
            0 <= i <= n,
            demux.dedup.wf(),
            demux.dedup.capacity() == cap,
            demux.max_reorder == mr,
            (out@.map_values(|e: ReceivedEvent| e@), demux_model(*demux)) == demux_datagrams(
                d0,
                cap,
                mr,
                dgs.subrange(0, i as int),
                now_ns,
                duplicate_rx,
            ),
        decreases n - i,
    {
        let ghost pre = dgs.subrange(0, i as int);
        assert(dgs.subrange(0, i as int + 1).drop_last() =~= pre);
        assert(dgs.subrange(0, i as int + 1).last() == datagrams@[i as int]@);
        let ghost before = out@.map_values(|e: ReceivedEvent| e@);
        match split_header_payload(datagrams[i].as_slice()) {
            Ok((h, pl)) => {
                let mut payload: Vec<u8> = Vec::new();
                push_all(&mut payload, pl);
                let ghost hv = h@;
                let ghost m1 = demux_model(*demux);
                let ev = demux.handle_datagram(h, payload, now_ns, duplicate_rx);
                proof {
                    let st = demux_step(m1, cap, mr, hv, pl@, now_ns, duplicate_rx);
                    assert(ev@ == st.0);
                    assert(demux_model(*demux) == st.1);
                }
                out.push(ev);
                assert(out@.map_values(|e: ReceivedEvent| e@) =~= before.push(ev@));
            },
            Err(_) => {},
        }
        i = i + 1;
    }
    assert(dgs.subrange(0, n as int) =~= dgs);
    out
}

/// With duplicate suppression on, in a demux that remembers at least one pair, a second
/// copy of a datagram (same stream and sequence number, any payload, any time) right after
/// the first is reported as a duplicate and leaves the receive state as the first copy
/// left it.
pub proof fn lemma_second_copy_changes_nothing(
    d: DemuxView,
    cap: nat,
    max_reorder: u32,
    h1: HeaderView,
    p1: Seq<u8>,
    t1: u64,
    h2: HeaderView,
    p2: Seq<u8>,
    t2: u64,
)
    requires
        cap > 0,
        h1.stream_id == h2.stream_id,
        h1.seq == h2.seq,
    ensures
        ({
            let (e1, d1) = demux_step(d, cap, max_reorder, h1, p1, t1, true);
            demux_step(d1, cap, max_reorder, h2, p2, t2, true) == (EventView::Duplicate, d1)
        }),
{
    let key = dedup_key(h1.stream_id, h1.seq);
    let (e1, d1) = demux_step(d, cap, max_reorder, h1, p1, t1, true);
    if !d.keys.contains(key) {
        crate::receive::lemma_second_copy_is_duplicate(d.keys, key, cap);
    }
}

/// A datagram that does not start with the LTP magic, or with an unsupported version, is
/// refused before its payload is looked at; and a refused datagram is dropped by the
/// receive path: no event, and the receive state is as before it.
pub proof fn lemma_rejected_datagram_ignored(
    d: DemuxView,
    cap: nat,
    max_reorder: u32,
    dgs: Seq<Seq<u8>>,
    bad: Seq<u8>,
    now: u64,
    dup: bool,
)
    requires
        split_datagram(bad) is Err,
    ensures
        demux_datagrams(d, cap, max_reorder, dgs.push(bad), now, dup) == demux_datagrams(
            d,
            cap,
            max_reorder,
            dgs,
            now,
            dup,
        ),
{
    assert(dgs.push(bad).drop_last() =~= dgs);
}

/// Datagrams with a wrong magic or an unsupported version are refused.
pub proof fn lemma_bad_magic_or_version_refused(b: Seq<u8>)
    requires
        b.len() >= FIXED_HEADER_LEN,
        u32_at(b, 0) != LTP_MAGIC || (b[4] >> 4u8) & 0x0Fu8 != LTP_VERSION,
    ensures
        split_datagram(b) is Err,
{
}

/// Sequence spaces are per stream: handling a datagram of one stream leaves the reorder
/// state of every other stream as it was.
pub proof fn lemma_streams_independent(
    d: DemuxView,
    cap: nat,
    max_reorder: u32,
    h: HeaderView,
    p: Seq<u8>,
    now: u64,
    dup: bool,
    other: u16,
)
    requires
        other != h.stream_id,
    ensures
        ({
            let d2 = demux_step(d, cap, max_reorder, h, p, now, dup).1;
            &&& d2.reorders.contains_key(other) == d.reorders.contains_key(other)
            &&& d.reorders.contains_key(other) ==> d2.reorders[other] == d.reorders[other]
        }),
{
}

/// Control and haptic datagrams of the control or haptic class go through their stream's
/// reorder buffer: unless suppressed as a duplicate, what the receive path reports for
/// one is the in-order run that pushing it into the stream delivers, and the stream's
/// reorder state moves on accordingly; it is never passed through as telemetry.
pub proof fn lemma_control_and_haptic_are_reordered(
    d: DemuxView,
    cap: nat,
    max_reorder: u32,
    h: HeaderView,
    p: Seq<u8>,
    now: u64,
    dup: bool,
)
    requires
        h.priority == PriorityClass::Control || h.priority == PriorityClass::Haptic,
        h.payload_type == PayloadType::Control || h.payload_type == PayloadType::Haptic,
        !(dup && d.keys.contains(dedup_key(h.stream_id, h.seq))),
    ensures
        ({
            let (e, d2) = demux_step(d, cap, max_reorder, h, p, now, dup);
            let (out, next) = reorder_push(reorder_before(d.reorders, h.stream_id, max_reorder), h.seq, p);
            &&& e == EventView::ControlOrdered(out)
            &&& d2.reorders == d.reorders.insert(h.stream_id, next)
            &&& d2.video == d.video
        }),
{
}

} // verus!
