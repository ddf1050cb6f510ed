//! Decisions of the robot-site gateway: JPEG frames to LTP video datagrams, control
//! envelopes to teleop records, the teleop TCP target check and the periodic statistics.

use vstd::prelude::*;

use crate::control_envelope::{decode_envelope, ControlEnvelope};
use crate::error::WireError;
use crate::framer::{frame_datagram, lemma_split_after_frame, split_datagram};
use crate::header::{
    default_header, encode_header, header_deadline, normalized_header, padded_extension,
    HeaderView, LtpHeader, PayloadType, PriorityClass,
};
use crate::receive::{concat_present, frame_after, frame_before, seq_plus, video_ingest, VideoView};
use crate::scheduler::{packet_views, PacketView, ScheduledPacket};
use crate::video_slice::{chunks_of, lemma_chunks_of_reassemble, slice_payload};
use crate::wire::{be64, lemma_be64_decode, push_all, views};

verus! {

/// Bytes of an LTP video datagram before the slice: fixed header plus the 8-byte
/// deadline extension.
pub const VIDEO_HDR_BODY: usize = 40;

/// Size of the teleop record forwarded to the local teleop TCP listener.
pub const QUEST_TELEOP112_LEN: usize = 112;

/// Queued video datagrams above which new JPEGs are skipped.
pub const BACKPRESSURE_THRESHOLD: usize = 512;

/// Most slices one frame may have (the header's slice count is one byte).
pub const MAX_SLICES_PER_FRAME: usize = 255;

/// How long after capture a video slice is still worth sending.
pub const VIDEO_DEADLINE_BUDGET_NS: u64 = 500000000;

/// Cameras the gateway serves; camera `i` sends on stream `i + 1`.
pub const GATEWAY_CAMERAS: u8 = 4;

/// Why a JPEG could not be turned into datagrams.
#[derive(Clone, Copy, Debug, PartialEq, Eq, Structural)]
pub enum JpegSendError {
    /// The frame needs more than 255 slices at this MTU; `min_mtu` is roughly the MTU
    /// that would fit it.
    TooManySlices { jpeg_len: usize, slices: usize, min_mtu: usize },
    /// A slice could not be framed.
    Frame(WireError),
}

/// The deadline of a frame captured at `capture_ns` (saturating).
pub open spec fn video_deadline(capture_ns: u64) -> u64 {
    if capture_ns + VIDEO_DEADLINE_BUDGET_NS > u64::MAX {
        u64::MAX
    } else {
        (capture_ns + VIDEO_DEADLINE_BUDGET_NS) as u64
    }
}

/// The header of slice `slice_id` of `slice_count` of a frame, carrying `len` bytes.
pub open spec fn video_slice_header(
    stream_id: u16,
    seq: u32,
    capture_ns: u64,
    frame_id: u16,
    slice_id: nat,
    slice_count: nat,
    len: nat,
) -> HeaderView {
    HeaderView {
        stream_id,
        seq,
        timestamp_ns: capture_ns,
        frame_id,
        slice_id: slice_id as u8,
        slice_count: slice_count as u8,
        payload_len: len as u16,
        payload_type: PayloadType::VideoSlice,
        priority: PriorityClass::Video,
        extension: be64(video_deadline(capture_ns)),
        ..default_header()
    }
}

/// The scheduled packet of slice `i` of a frame cut into `chunks`, the first slice
/// numbered `seq0 + 1`.
pub open spec fn video_slice_packet(
    stream_id: u16,
    seq0: u32,
    capture_ns: u64,
    frame_id: u16,
    chunks: Seq<Seq<u8>>,
    i: int,
) -> PacketView {
    PacketView {
        priority: PriorityClass::Video,
        payload_type: PayloadType::VideoSlice,
        datagram: encode_header(
            video_slice_header(
                stream_id,
                seq_plus(seq0, (i + 1) as nat),
                capture_ns,
                frame_id,
                i as nat,
                chunks.len(),
                chunks[i].len(),
            ),
        ) + chunks[i],
        deadline_key: video_deadline(capture_ns),
    }
}

/// The MTU the error message suggests for a JPEG of `len` bytes.
pub open spec fn suggested_mtu(len: nat) -> nat {
    (len + 254) / 255 + VIDEO_HDR_BODY as nat
}

/// The datagrams of one JPEG frame on `stream_id`: the JPEG cut into slices that fit
/// `mtu` after the 40-byte header, each framed with its slice number, the slice count,
/// the capture time and the deadline extension, numbered on from `*seq`.
/// - More than 255 slices: refused, `*seq` unchanged.
/// - A slice too long for the 16-bit payload length (an MTU above 65575): refused at the
///   first slice, after `*seq` moved on by one.
pub fn video_frame_packets(
    mtu: usize,
    stream_id: u16,
    seq: &mut u32,
    frame_id: u16,
    jpeg: &[u8],
    capture_ns: u64,
) -> (r: Result<Vec<ScheduledPacket>, JpegSendError>)
    requires
        jpeg@.len() + 254 <= usize::MAX,
    ensures
        ({
            let chunks = chunks_of(
                jpeg@,
                if mtu > VIDEO_HDR_BODY {
                    (mtu - VIDEO_HDR_BODY) as nat
                } else {
                    0
                },
            );
            let n = chunks.len();
            match r {
                Ok(v) => n <= MAX_SLICES_PER_FRAME && (n == 0 || chunks[0].len() <= 0xFFFF) && v@.len()
                    == n && (forall|i: int|
                    0 <= i < n ==> #[trigger] packet_views(v@)[i] == video_slice_packet(
                        stream_id,
                        *old(seq),
                        capture_ns,
                        frame_id,
                        chunks,
                        i,
                    )) && *final(seq) == seq_plus(*old(seq), n),
                Err(JpegSendError::TooManySlices { jpeg_len, slices, min_mtu }) => n
                    > MAX_SLICES_PER_FRAME && jpeg_len == jpeg@.len() && slices == n && min_mtu
                    == suggested_mtu(jpeg@.len()) && *final(seq) == *old(seq),
                Err(JpegSendError::Frame(e)) => 0 < n <= MAX_SLICES_PER_FRAME && chunks[0].len()
                    > 0xFFFF && e == WireError::PayloadLenMismatch && *final(seq) == seq_plus(
                    *old(seq),
                    1,
                ),
            }
        }),
{
    let chunks = slice_payload(mtu, VIDEO_HDR_BODY, jpeg);
    let ghost cs = views(chunks@);
    let ghost max: nat = if mtu > VIDEO_HDR_BODY {
        (mtu - VIDEO_HDR_BODY) as nat
    } else {
        0
    };
    assert(cs == chunks_of(jpeg@, max));
    let n: usize = chunks.len();
    if n > MAX_SLICES_PER_FRAME {
        let min_mtu: usize = (jpeg.len() + 254) / 255 + VIDEO_HDR_BODY;
        return Err(JpegSendError::TooManySlices { jpeg_len: jpeg.len(), slices: n, min_mtu });
    }
    let mut out: Vec<ScheduledPacket> = Vec::new();
    if n == 0 {
        return Ok(out);
    }
    let slice_count: u8 = n as u8;
    let deadline_ns: u64 = capture_ns.saturating_add(VIDEO_DEADLINE_BUDGET_NS);
    let ghost seq0 = *seq;
    let mut i: usize = 0;
    while i < n
        invariant
            n == chunks@.len(),
            0 < n <= MAX_SLICES_PER_FRAME,
            slice_count == n,
            cs == views(chunks@),
            cs == chunks_of(jpeg@, max),
            max == if mtu > VIDEO_HDR_BODY {
                (mtu - VIDEO_HDR_BODY) as nat
            } else {
                0
            },
            max > 0,
            crate::video_slice::is_chunking(cs, jpeg@, max),
            deadline_ns == video_deadline(capture_ns),
            0 <= i <= n,
            i > 0 ==> cs[0].len() <= 0xFFFF,
            out@.len() == i,
            seq0 == *old(seq),
            *seq == seq_plus(seq0, i as nat),
            forall|j: int|
                0 <= j < i ==> #[trigger] packet_views(out@)[j] == video_slice_packet(
                    stream_id,
                    seq0,
                    capture_ns,
                    frame_id,
                    cs,
                    j,
                ),
        decreases n - i,
    {
        *seq = seq.wrapping_add(1);
        assert(*seq == seq_plus(seq0, (i + 1) as nat));
        let mut hdr = LtpHeader::default();
        hdr.stream_id = stream_id;
        hdr.seq = *seq;
        hdr.timestamp_ns = capture_ns;
        hdr.frame_id = frame_id;
        hdr.slice_id = i as u8;
        hdr.slice_count = slice_count;
        hdr.payload_len = chunks[i].len() as u16;
        hdr.payload_type = PayloadType::VideoSlice;
        hdr.priority = PriorityClass::Video;
        hdr.set_deadline_extension(deadline_ns);
        assert(cs[i as int] == chunks@[i as int]@);
        assert(hdr@ == video_slice_header(
            stream_id,
            seq_plus(seq0, (i + 1) as nat),
            capture_ns,
            frame_id,
            i as nat,
            n as nat,
            cs[i as int].len(),
        ));
        let dg = match frame_datagram(&hdr, chunks[i].as_slice()) {
            Ok(d) => d,
            Err(e) => {
                proof {
                    assert(cs.len() == n);
                    assert(cs[i as int].len() > 0xFFFF);
                    if i > 0 {
                        assert(cs[0].len() == max);
                        assert(cs[i as int].len() <= max);
                        assert(false);
                    }
                    assert(i == 0);
                    assert(cs[0].len() > 0xFFFF);
                }
                return Err(JpegSendError::Frame(e));
            },
        };
        let ghost before = packet_views(out@);
        out.push(
            ScheduledPacket {
                priority: PriorityClass::Video,
                payload_type: PayloadType::VideoSlice,
                datagram: dg,
                deadline_key: deadline_ns,
            },
        );
        assert(packet_views(out@) =~= before.push(
            video_slice_packet(stream_id, seq0, capture_ns, frame_id, cs, i as int),
        ));
        i = i + 1;
    }
    Ok(out)
}

/// Each video datagram splits back into its slice header (with its length field as
/// written) and its slice; the header carries the frame's deadline.
pub proof fn lemma_video_slice_splits_back(
    stream_id: u16,
    seq0: u32,
    capture_ns: u64,
    frame_id: u16,
    chunks: Seq<Seq<u8>>,
    i: int,
)
    requires
        0 <= i < chunks.len(),
        chunks[i].len() <= 0xFFFF,
    ensures
        ({
            let h = video_slice_header(
                stream_id,
                seq_plus(seq0, (i + 1) as nat),
                capture_ns,
                frame_id,
                i as nat,
                chunks.len(),
                chunks[i].len(),
            );
            &&& split_datagram(
                video_slice_packet(stream_id, seq0, capture_ns, frame_id, chunks, i).datagram,
            ) == Ok::<(HeaderView, Seq<u8>), WireError>((normalized_header(h), chunks[i]))
            &&& header_deadline(normalized_header(h)) == video_deadline(capture_ns)
        }),
{
    let h = video_slice_header(
        stream_id,
        seq_plus(seq0, (i + 1) as nat),
        capture_ns,
        frame_id,
        i as nat,
        chunks.len(),
        chunks[i].len(),
    );
    lemma_split_after_frame(h, chunks[i], Seq::empty());
    assert(encode_header(h) + chunks[i] + Seq::<u8>::empty() =~= encode_header(h) + chunks[i]);
    assert(padded_extension(h.extension) =~= h.extension);
    lemma_be64_decode(video_deadline(capture_ns));
}

/// The datagrams of a frame cut into `chunks`, in slice order.
pub open spec fn frame_datagrams(
    stream_id: u16,
    seq0: u32,
    capture_ns: u64,
    frame_id: u16,
    chunks: Seq<Seq<u8>>,
) -> Seq<Seq<u8>> {
    Seq::new(
        chunks.len(),
        |i: int| video_slice_packet(stream_id, seq0, capture_ns, frame_id, chunks, i).datagram,
    )
}

/// Datagrams fed in order to a receiver's video reassembly, the `i`-th at local time
/// `times[i]`: what the last one completed, if anything, and the reassembly state after
/// them. Datagrams that do not split into header and payload are skipped.
pub open spec fn receive_video(v: VideoView, dgs: Seq<Seq<u8>>, times: Seq<u64>) -> (
    Option<Seq<u8>>,
    VideoView,
)
    decreases dgs.len(),
{
    if dgs.len() == 0 {
        (None, v)
    } else {
        let v1 = receive_video(v, dgs.drop_last(), times).1;
        match split_datagram(dgs.last()) {
            Ok((h, p)) => video_ingest(v1, h, p, times[dgs.len() - 1]),
            Err(_) => (None, v1),
        }
    }
}

/// `order` lists each of `0..n` exactly once.
pub open spec fn is_order(order: Seq<int>, n: nat) -> bool {
    &&& order.len() == n
    &&& forall|j: int| 0 <= j < n ==> 0 <= #[trigger] order[j] < n
    &&& forall|j: int, l: int| 0 <= j < l < n ==> order[j] != order[l]
    &&& forall|s: int| 0 <= s < n ==> order.contains(s)
}

/// `dgs` taken in the order `order`.
pub open spec fn reordered(dgs: Seq<Seq<u8>>, order: Seq<int>) -> Seq<Seq<u8>> {
    Seq::new(order.len(), |j: int| dgs[order[j]])
}

/// The chunks whose slice numbers are among the first `k` of `order`, keyed by slice number.
pub open spec fn slices_placed(chunks: Seq<Seq<u8>>, order: Seq<int>, k: int) -> Map<u8, Seq<u8>> {
    Map::new(|s: u8| order.take(k).contains(s as int), |s: u8| chunks[s as int])
}

/// The first `k` chunks keyed by slice number.
pub open spec fn slice_map(chunks: Seq<Seq<u8>>, k: int) -> Map<u8, Seq<u8>> {
    Map::new(|j: u8| (j as int) < k, |j: u8| chunks[j as int])
}

proof fn lemma_concat_slice_map(chunks: Seq<Seq<u8>>, n: int, k: int)
    requires
        0 <= k <= n <= chunks.len(),
        n <= 255,
    ensures
        concat_present(slice_map(chunks, n), k as nat) == chunks.take(k).flatten(),
    decreases k,
{
    if k == 0 {
        assert(chunks.take(0) =~= Seq::<Seq<u8>>::empty());
    } else {
        lemma_concat_slice_map(chunks, n, k - 1);
        let m = slice_map(chunks, n);
        let key = (k - 1) as u8;
        assert(key as int == k - 1);
        assert(m.contains_key(key));
        chunks.take(k - 1).lemma_flatten_push(chunks[k - 1]);
        assert(chunks.take(k - 1).push(chunks[k - 1]) =~= chunks.take(k));
    }
}

proof fn lemma_order_take_step(order: Seq<int>, n: nat, j: int)
    requires
        is_order(order, n),
        0 <= j < n,
    ensures
        forall|s: int| #[trigger] order.take(j + 1).contains(s) <==> (order.take(j).contains(s) || s == order[j]),
        !order.take(j).contains(order[j]),
{
    assert forall|s: int| #[trigger] order.take(j + 1).contains(s) <==> (order.take(j).contains(s) || s == order[j]) by {
        if order.take(j + 1).contains(s) {
            let w = choose|w: int| 0 <= w < j + 1 && #[trigger] order.take(j + 1)[w] == s;
            if w < j {
                assert(order.take(j)[w] == s);
            }
        }
        if order.take(j).contains(s) {
            let w = choose|w: int| 0 <= w < j && #[trigger] order.take(j)[w] == s;
            assert(order.take(j + 1)[w] == s);
        }
        if s == order[j] {
            assert(order.take(j + 1)[j] == s);
        }
    }
    if order.take(j).contains(order[j]) {
        let w = choose|w: int| 0 <= w < j && #[trigger] order.take(j)[w] == order[j];
        assert(order[w] == order[j]);
    }
}

proof fn lemma_order_all_placed(order: Seq<int>, n: nat)
    requires
        is_order(order, n),
    ensures
        forall|s: int| #[trigger] order.take(n as int).contains(s) <==> 0 <= s < n,
{
    assert(order.take(n as int) =~= order);
    assert forall|s: int| #[trigger] order.take(n as int).contains(s) <==> 0 <= s < n by {
        if order.contains(s) {
            let w = choose|w: int| 0 <= w < n && #[trigger] order[w] == s;
        }
    }
}

proof fn lemma_receive_step(
    vj: VideoView,
    h: HeaderView,
    chunks: Seq<Seq<u8>>,
    order: Seq<int>,
    frame_id: u16,
    now: u64,
    j: int,
)
    requires
        0 < chunks.len() <= MAX_SLICES_PER_FRAME,
        is_order(order, chunks.len()),
        0 <= j < chunks.len(),
        h.frame_id == frame_id,
        h.payload_type == PayloadType::VideoSlice,
        h.slice_count as int == chunks.len(),
        h.slice_id as int == order[j],
        j == 0 ==> !vj.frames.contains_key(frame_id),
        j > 0 ==> {
            &&& vj.frames.contains_key(frame_id)
            &&& vj.frames[frame_id].expected == chunks.len()
            &&& vj.frames[frame_id].slices == slices_placed(chunks, order, j)
            &&& vj.frames[frame_id].slices.dom().finite()
            &&& vj.frames[frame_id].slices.dom().len() == j
        },
    ensures
        ({
            let (out, vk) = video_ingest(vj, h, chunks[order[j]], now);
            let k = j + 1;
            &&& k < chunks.len() ==> out is None
            &&& k < chunks.len() ==> {
                &&& vk.frames.contains_key(frame_id)
                &&& vk.frames[frame_id].expected == chunks.len()
                &&& vk.frames[frame_id].slices == slices_placed(chunks, order, k)
                &&& vk.frames[frame_id].slices.dom().finite()
                &&& vk.frames[frame_id].slices.dom().len() == k
            }
            &&& k == chunks.len() ==> out == Some(chunks.flatten())
        }),
{
    let n = chunks.len() as int;
    let k = j + 1;
    let i = order[j];
    let f0 = frame_before(vj, frame_id);
    let f = frame_after(vj, h, chunks[i], now);
    lemma_order_take_step(order, chunks.len(), j);
    assert(f.slices =~= slices_placed(chunks, order, k)) by {
        if j == 0 {
            assert(f0.slices =~= Map::<u8, Seq<u8>>::empty());
            assert(order.take(0) =~= Seq::<int>::empty());
        }
    }
    assert(f.expected as int == n);
    assert(f.slices.dom() =~= f0.slices.dom().insert(i as u8));
    if j == 0 {
        assert(f0.slices.dom() =~= Set::<u8>::empty());
    }
    assert(!f0.slices.dom().contains(i as u8));
    assert(f.slices.dom().len() == k);
    if k == n {
        lemma_order_all_placed(order, chunks.len());
        assert(f.slices =~= slice_map(chunks, n));
        lemma_concat_slice_map(chunks, n, n);
        assert(chunks.take(n) =~= chunks);
    }
}

proof fn lemma_receive_prefix(
    v: VideoView,
    stream_id: u16,
    seq0: u32,
    capture_ns: u64,
    frame_id: u16,
    chunks: Seq<Seq<u8>>,
    order: Seq<int>,
    times: Seq<u64>,
    k: int,
)
    requires
        0 < chunks.len() <= MAX_SLICES_PER_FRAME,
        forall|j: int| 0 <= j < chunks.len() ==> #[trigger] chunks[j].len() <= 0xFFFF,
        is_order(order, chunks.len()),
        !v.frames.contains_key(frame_id),
        0 <= k <= chunks.len(),
    ensures
        ({
            let dgs = reordered(frame_datagrams(stream_id, seq0, capture_ns, frame_id, chunks), order);
            let (out, vk) = receive_video(v, dgs.take(k), times);
            &&& k < chunks.len() ==> out is None
            &&& k == 0 ==> vk == v
            &&& 0 < k < chunks.len() ==> {
                &&& vk.frames.contains_key(frame_id)
                &&& vk.frames[frame_id].expected == chunks.len()
                &&& vk.frames[frame_id].slices == slices_placed(chunks, order, k)
                &&& vk.frames[frame_id].slices.dom().finite()
                &&& vk.frames[frame_id].slices.dom().len() == k
            }
            &&& k == chunks.len() ==> out == Some(chunks.flatten())
        }),
    decreases k,
{
    let all = frame_datagrams(stream_id, seq0, capture_ns, frame_id, chunks);
    let dgs = reordered(all, order);
    if k == 0 {
        assert(dgs.take(0) =~= Seq::<Seq<u8>>::empty());
    } else {
        lemma_receive_prefix(v, stream_id, seq0, capture_ns, frame_id, chunks, order, times, k - 1);
        let j = k - 1;
        let i = order[j];
        assert(dgs.take(k).drop_last() =~= dgs.take(j));
        assert(dgs.take(k).last() == all[i]);
        lemma_video_slice_splits_back(stream_id, seq0, capture_ns, frame_id, chunks, i);
        let h = normalized_header(
            video_slice_header(
                stream_id,
                seq_plus(seq0, (i + 1) as nat),
                capture_ns,
                frame_id,
                i as nat,
                chunks.len(),
                chunks[i].len(),
            ),
        );
        let vj = receive_video(v, dgs.take(j), times).1;
        assert(receive_video(v, dgs.take(k), times) == video_ingest(vj, h, chunks[i], times[j]));
        lemma_receive_step(vj, h, chunks, order, frame_id, times[j], j);
    }
}

/// A JPEG cut into slices and framed as the gateway does, received slice by slice in any
/// order and at any times by a reassembly holding no partial frame under that frame id,
/// comes out whole at the last slice and not before.
pub proof fn lemma_sliced_frame_reassembles(
    v: VideoView,
    stream_id: u16,
    seq0: u32,
    capture_ns: u64,
    frame_id: u16,
    jpeg: Seq<u8>,
    max_chunk: nat,
    order: Seq<int>,
    times: Seq<u64>,
)
    requires
        0 < max_chunk <= 0xFFFF,
        jpeg.len() > 0,
        chunks_of(jpeg, max_chunk).len() <= MAX_SLICES_PER_FRAME,
        is_order(order, chunks_of(jpeg, max_chunk).len()),
        !v.frames.contains_key(frame_id),
    ensures
        ({
            let chunks = chunks_of(jpeg, max_chunk);
            let dgs = reordered(frame_datagrams(stream_id, seq0, capture_ns, frame_id, chunks), order);
            &&& receive_video(v, dgs, times).0 == Some(jpeg)
            &&& forall|k: int|
                0 <= k < dgs.len() ==> (#[trigger] receive_video(v, dgs.take(k), times)).0 is None
        }),
{
    let chunks = chunks_of(jpeg, max_chunk);
    let dgs = reordered(frame_datagrams(stream_id, seq0, capture_ns, frame_id, chunks), order);
    lemma_chunks_of_reassemble(jpeg, max_chunk);
    let n = chunks.len() as int;
    lemma_receive_prefix(v, stream_id, seq0, capture_ns, frame_id, chunks, order, times, n);
    assert(dgs.take(n) =~= dgs);
    assert forall|k: int| 0 <= k < dgs.len() implies (#[trigger] receive_video(
        v,
        dgs.take(k),
        times,
    )).0 is None by {
        lemma_receive_prefix(v, stream_id, seq0, capture_ns, frame_id, chunks, order, times, k);
    }
}

/// The teleop records among decoded control chunks: payloads of envelopes with
/// `schema_id` whose payload is exactly one record long, in order.
pub open spec fn teleop_records(chunks: Seq<Seq<u8>>, schema_id: u16) -> Seq<Seq<u8>>
    decreases chunks.len(),
{
    if chunks.len() == 0 {
        Seq::empty()
    } else {
        teleop_records(chunks.drop_last(), schema_id) + match decode_envelope(chunks.last()) {
            Ok((s, p)) => if s == schema_id && p.len() == QUEST_TELEOP112_LEN {
                seq![p]
            } else {
                Seq::empty()
            },
            Err(_) => Seq::empty(),
        }
    }
}

/// The teleop records to forward from a batch of ordered control chunks.
pub fn teleop_payloads(chunks: &Vec<Vec<u8>>, schema_id: u16) -> (r: Vec<Vec<u8>>)
    ensures
        views(r@) == teleop_records(views(chunks@), schema_id),
{
    let ghost cs = views(chunks@);
    let mut out: Vec<Vec<u8>> = Vec::new();
    let n: usize = chunks.len();
    let mut i: usize = 0;
    while i < n
        invariant
            n == chunks@.len(),
            cs == views(chunks@),
            0 <= i <= n,
            views(out@) == teleop_records(cs.subrange(0, i as int), schema_id),
        decreases n - i,
    {
        assert(cs.subrange(0, i as int + 1).drop_last() =~= cs.subrange(0, i as int));
        assert(cs.subrange(0, i as int + 1).last() == chunks@[i as int]@);
        let ghost before = views(out@);
        match ControlEnvelope::decode(chunks[i].as_slice()) {
            Ok(env) => {
                if env.schema_id == schema_id && env.payload.len() == QUEST_TELEOP112_LEN {
                    let ghost p = env.payload@;
                    out.push(env.payload);
                    assert(views(out@) =~= before + seq![p]);
                } else {
                    assert(before + Seq::<Seq<u8>>::empty() =~= before);
                }
            },
            Err(_) => {
                assert(before + Seq::<Seq<u8>>::empty() =~= before);
            },
        }
        i = i + 1;
    }
    assert(cs.subrange(0, n as int) =~= cs);
    out
}

/// The stream a camera's JPEGs go out on; none for a camera the gateway does not serve.
pub fn stream_for_camera(cam: u8) -> (r: Option<u16>)
    ensures
        r == if cam < GATEWAY_CAMERAS {
            Some((cam + 1) as u16)
        } else {
            None::<u16>
        },
{
    if cam < GATEWAY_CAMERAS {
        Some(cam as u16 + 1)
    } else {
        None
    }
}

/// Whether the video queue is long enough that new JPEGs are skipped.
pub fn video_congested(video_queue_len: usize) -> (r: bool)
    ensures
        r == (video_queue_len > BACKPRESSURE_THRESHOLD),
{
    video_queue_len > BACKPRESSURE_THRESHOLD
}

/// Why a teleop TCP target is refused.
#[derive(Clone, Copy, Debug, PartialEq, Eq, Structural)]
pub enum TeleopTargetError {
    /// `0.0.0.0`: a bind wildcard, not a connect target.
    UnspecifiedV4,
    /// `::`: unspecified.
    UnspecifiedV6,
}

impl TeleopTargetError {
    /// The message shown to the operator.
    pub fn message(&self) -> (r: &'static str)
        ensures
            *self == TeleopTargetError::UnspecifiedV4 ==> r@
                == "--teleop-tcp must not use 0.0.0.0 (bind wildcard, not a connect target); use 127.0.0.1:8081 for local quest_teleop"@,
            *self == TeleopTargetError::UnspecifiedV6 ==> r@
                == "--teleop-tcp must not use :: (unspecified); use [::1]:8081 for local quest_teleop"@,
    {
        match self {
            TeleopTargetError::UnspecifiedV4 => "--teleop-tcp must not use 0.0.0.0 (bind wildcard, not a connect target); use 127.0.0.1:8081 for local quest_teleop",
            TeleopTargetError::UnspecifiedV6 => "--teleop-tcp must not use :: (unspecified); use [::1]:8081 for local quest_teleop",
        }
    }
}

/// All bytes are zero.
pub open spec fn all_zero(s: Seq<u8>) -> bool {
    forall|i: int| 0 <= i < s.len() ==> s[i] == 0
}

/// Checks the teleop TCP target by the octets of its IP address (4 for IPv4, 16 for
/// IPv6): the unspecified address of either family is refused.
pub fn validate_teleop_ip(octets: &[u8]) -> (r: Result<(), TeleopTargetError>)
    ensures
        r == if octets@.len() == 4 && all_zero(octets@) {
            Err(TeleopTargetError::UnspecifiedV4)
        } else if octets@.len() == 16 && all_zero(octets@) {
            Err(TeleopTargetError::UnspecifiedV6)
        } else {
            Ok(())
        },
{
    let n: usize = octets.len();
    if n != 4 && n != 16 {
        return Ok(());
    }
    let mut i: usize = 0;
    while i < n
        invariant
            n == octets@.len(),
            i <= n,
            forall|j: int| 0 <= j < i ==> octets@[j] == 0,
        decreases n - i,
    {
        if octets[i] != 0 {
            return Ok(());
        }
        i = i + 1;
    }
    if n == 4 {
        Err(TeleopTargetError::UnspecifiedV4)
    } else {
        Err(TeleopTargetError::UnspecifiedV6)
    }
}

/// Least time between two statistics reports.
pub const STATS_INTERVAL_NS: u64 = 5000000000;

/// Counters of the gateway's main loop, reported every few seconds.
pub struct GatewayStats {
    pub jpeg_frames: [u64; 4],
    pub jpeg_bytes: [u64; 4],
    pub ltp_slices_encoded: u64,
    pub control_to_teleop: u64,
    pub control_dropped_no_tcp: u64,
    pub ingress_dup: u64,
    pub ingress_video: u64,
    pub ingress_telem: u64,
    pub jpegs_skipped_backpressure: u64,
    /// When the last report went out, on the loop's clock.
    pub last_emit_ns: Option<u64>,
    pub last_pending_send: usize,
    pub max_pending_send: usize,
    /// Latency sums in microseconds, reset with each report.
    pub lat_channel_us_sum: u64,
    pub lat_encode_us_sum: u64,
    pub lat_poll_us_sum: u64,
    pub lat_flush_us_sum: u64,
    pub lat_drain_us_sum: u64,
    pub lat_sample_count: u64,
    pub lat_loop_count: u64,
}

/// One statistics report: the counters and the average latencies since the last report.
pub struct StatsReport {
    pub jpeg_frames: [u64; 4],
    pub last_pending_send: usize,
    pub max_pending_send: usize,
    pub jpegs_skipped_backpressure: u64,
    pub control_to_teleop: u64,
    pub ingress_dup: u64,
    pub ingress_video: u64,
    pub ingress_telem: u64,
    pub chan_queue_avg_us: u64,
    pub encode_avg_us: u64,
    pub poll_avg_us: u64,
    pub flush_avg_us: u64,
    pub drain_avg_us: u64,
    /// Loop iterations and JPEGs the averages are over (at least 1).
    pub loops: u64,
    pub jpegs: u64,
}

/// `n`, or 1 when it is 0.
pub open spec fn at_least_one(n: u64) -> u64 {
    if n == 0 {
        1
    } else {
        n
    }
}

/// Nothing at all has been counted: no JPEG, no slice, no ingress event.
pub open spec fn stats_quiet(s: GatewayStats) -> bool {
    s.jpeg_frames@[0] + s.jpeg_frames@[1] + s.jpeg_frames@[2] + s.jpeg_frames@[3] == 0
        && s.ltp_slices_encoded == 0 && s.ingress_dup + s.ingress_video + s.ingress_telem == 0
}

/// A report is due at `now_ns`: none went out yet, or the interval has passed since.
pub open spec fn stats_due(s: GatewayStats, now_ns: u64) -> bool {
    match s.last_emit_ns {
        None => true,
        Some(t) => now_ns >= t && now_ns - t >= STATS_INTERVAL_NS,
    }
}

/// The report of `s`.
pub open spec fn stats_report(s: GatewayStats) -> StatsReport {
    StatsReport {
        jpeg_frames: s.jpeg_frames,
        last_pending_send: s.last_pending_send,
        max_pending_send: s.max_pending_send,
        jpegs_skipped_backpressure: s.jpegs_skipped_backpressure,
        control_to_teleop: s.control_to_teleop,
        ingress_dup: s.ingress_dup,
        ingress_video: s.ingress_video,
        ingress_telem: s.ingress_telem,
        chan_queue_avg_us: (s.lat_channel_us_sum / at_least_one(s.lat_sample_count)) as u64,
        encode_avg_us: (s.lat_encode_us_sum / at_least_one(s.lat_sample_count)) as u64,
        poll_avg_us: (s.lat_poll_us_sum / at_least_one(s.lat_loop_count)) as u64,
        flush_avg_us: (s.lat_flush_us_sum / at_least_one(s.lat_loop_count)) as u64,
        drain_avg_us: (s.lat_drain_us_sum / at_least_one(s.lat_loop_count)) as u64,
        loops: at_least_one(s.lat_loop_count),
        jpegs: at_least_one(s.lat_sample_count),
    }
}

/// `s` after a report at `now_ns`: the time noted and the latency sums restarted.
pub open spec fn stats_after_report(s: GatewayStats, now_ns: u64) -> GatewayStats {
    GatewayStats {
        last_emit_ns: Some(now_ns),
        lat_channel_us_sum: 0,
        lat_encode_us_sum: 0,
        lat_poll_us_sum: 0,
        lat_flush_us_sum: 0,
        lat_drain_us_sum: 0,
        lat_sample_count: 0,
        lat_loop_count: 0,
        ..s
    }
}

impl Default for GatewayStats {
    fn default() -> (r: Self)
        ensures
            r.jpeg_frames@ == seq![0u64; 4],
            r.jpeg_bytes@ == seq![0u64; 4],
            r.ltp_slices_encoded == 0,
            r.control_to_teleop == 0,
            r.control_dropped_no_tcp == 0,
            r.ingress_dup == 0,
            r.ingress_video == 0,
            r.ingress_telem == 0,
            r.jpegs_skipped_backpressure == 0,
            r.last_emit_ns is None,
            r.last_pending_send == 0,
            r.max_pending_send == 0,
            r.lat_channel_us_sum == 0,
            r.lat_encode_us_sum == 0,
            r.lat_poll_us_sum == 0,
            r.lat_flush_us_sum == 0,
            r.lat_drain_us_sum == 0,
            r.lat_sample_count == 0,
            r.lat_loop_count == 0,
    {
        let r = GatewayStats {
            jpeg_frames: [0u64, 0u64, 0u64, 0u64],
            jpeg_bytes: [0u64, 0u64, 0u64, 0u64],
            ltp_slices_encoded: 0,
            control_to_teleop: 0,
            control_dropped_no_tcp: 0,
            ingress_dup: 0,
            ingress_video: 0,
            ingress_telem: 0,
            jpegs_skipped_backpressure: 0,
            last_emit_ns: None,
            last_pending_send: 0,
            max_pending_send: 0,
            lat_channel_us_sum: 0,
            lat_encode_us_sum: 0,
            lat_poll_us_sum: 0,
            lat_flush_us_sum: 0,
            lat_drain_us_sum: 0,
            lat_sample_count: 0,
            lat_loop_count: 0,
        };
        assert(r.jpeg_frames@ =~= seq![0u64; 4]);
        assert(r.jpeg_bytes@ =~= seq![0u64; 4]);
        r
    }
}

impl GatewayStats {
    /// The periodic report: none while nothing was counted or before the interval has
    /// passed since the last one; otherwise the report, after which the latency sums
    /// restart and `now_ns` is remembered.
    pub fn maybe_log(&mut self, now_ns: u64) -> (r: Option<StatsReport>)
        ensures
            stats_quiet(*old(self)) || !stats_due(*old(self), now_ns) ==> r is None && *final(self)
                == *old(self),
            !stats_quiet(*old(self)) && stats_due(*old(self), now_ns) ==> r == Some(
                stats_report(*old(self)),
            ) && *final(self) == stats_after_report(*old(self), now_ns),
    {
        let counted: bool = self.jpeg_frames[0] != 0 || self.jpeg_frames[1] != 0
            || self.jpeg_frames[2] != 0 || self.jpeg_frames[3] != 0 || self.ltp_slices_encoded
            != 0 || self.ingress_dup != 0 || self.ingress_video != 0 || self.ingress_telem != 0;
        if !counted {
            return None;
        }
        let due: bool = match self.last_emit_ns {
            None => true,
            Some(t) => now_ns.saturating_sub(t) >= STATS_INTERVAL_NS,
        };
        if !due {
            return None;
        }
        self.last_emit_ns = Some(now_ns);
        let n: u64 = if self.lat_sample_count == 0 {
            1
        } else {
            self.lat_sample_count
        };
        let loops: u64 = if self.lat_loop_count == 0 {
            1
        } else {
            self.lat_loop_count
        };
        let report = StatsReport {
            jpeg_frames: self.jpeg_frames,
            last_pending_send: self.last_pending_send,
            max_pending_send: self.max_pending_send,
            jpegs_skipped_backpressure: self.jpegs_skipped_backpressure,
            control_to_teleop: self.control_to_teleop,
            ingress_dup: self.ingress_dup,
            ingress_video: self.ingress_video,
            ingress_telem: self.ingress_telem,
            chan_queue_avg_us: self.lat_channel_us_sum / n,
            encode_avg_us: self.lat_encode_us_sum / n,
            poll_avg_us: self.lat_poll_us_sum / loops,
            flush_avg_us: self.lat_flush_us_sum / loops,
            drain_avg_us: self.lat_drain_us_sum / loops,
            loops,
            jpegs: n,
        };
        self.lat_channel_us_sum = 0;
        self.lat_encode_us_sum = 0;
        self.lat_poll_us_sum = 0;
        self.lat_flush_us_sum = 0;
        self.lat_drain_us_sum = 0;
        self.lat_sample_count = 0;
        self.lat_loop_count = 0;
        Some(report)
    }
}

} // verus!
