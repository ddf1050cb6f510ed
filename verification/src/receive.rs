//! Dedup, per-stream reorder for control, video reassembly with deadlines.

use std::collections::{BTreeMap, HashMap, HashSet, VecDeque};
use vstd::std_specs::hash::spec_keys_iter;
use vstd::std_specs::iter::IteratorSpec;
use vstd::prelude::*;

use crate::header::{header_deadline, HeaderView, LtpHeader, PayloadType, PriorityClass};
use crate::wire::{push_all, u64_at, views};

verus! {

broadcast use {
    vstd::std_specs::hash::group_hash_axioms,
    vstd::std_specs::btree::group_btree_axioms,
    vstd::laws_cmp::group_laws_cmp,
};

/// The single integer under which `(stream_id, seq)` is remembered.
pub open spec fn dedup_key(stream_id: u16, seq: u32) -> u64 {
    (stream_id as u64 * 0x1_0000_0000 + seq as u64) as u64
}

/// The remembered keys after admitting `key` into `order` with capacity `cap`:
/// appended, then the oldest dropped until at most `cap` remain.
pub open spec fn dedup_admit(order: Seq<u64>, key: u64, cap: nat) -> Seq<u64> {
    let pushed = order.push(key);
    if pushed.len() > cap {
        pushed.skip(pushed.len() - cap)
    } else {
        pushed
    }
}

/// Remembers the most recent `(stream_id, seq)` pairs, up to `cap` of them.
pub struct DedupTable {
    seen: HashSet<u64>,
    order: VecDeque<u64>,
    cap: usize,
}

impl DedupTable {
    /// The remembered keys, oldest first.
    pub closed spec fn keys(&self) -> Seq<u64> {
        self.order@
    }

    pub closed spec fn capacity(&self) -> nat {
        self.cap as nat
    }

    /// Internal consistency: the set is the queue's contents, without repeats, within capacity.
    pub closed spec fn wf(&self) -> bool {
        &&& self.seen@ == self.order@.to_set()
        &&& self.order@.no_duplicates()
        &&& self.order@.len() <= self.cap
    }

    /// An empty table remembering up to `cap` pairs.
    pub fn new(cap: usize) -> (t: Self)
        ensures
            t.wf(),
            t.keys() == Seq::<u64>::empty(),
            t.capacity() == cap,
    {
        let t = DedupTable { seen: HashSet::new(), order: VecDeque::new(), cap };
        assert(t.order@.to_set() =~= Set::<u64>::empty());
        t
    }

    /// Returns `true` the first time `(stream_id, seq)` is seen among the remembered pairs.
    pub fn first_arrival(&mut self, stream_id: u16, seq: u32) -> (r: bool)
        requires
            old(self).wf(),
        ensures
            final(self).wf(),
            final(self).capacity() == old(self).capacity(),
            r == !old(self).keys().contains(dedup_key(stream_id, seq)),
            r ==> final(self).keys() == dedup_admit(
                old(self).keys(),
                dedup_key(stream_id, seq),
                old(self).capacity(),
            ),
            !r ==> final(self).keys() == old(self).keys(),
    {
        let k: u64 = stream_id as u64 * 0x1_0000_0000u64 + seq as u64;
        if self.seen.contains(&k) {
            return false;
        }
        self.seen.insert(k);
        self.order.push_back(k);
        proof {
            assert forall|x: u64| #[trigger] self.order@.contains(x) <==> old(
                self,
            ).order@.to_set().insert(k).contains(x) by {
                if self.order@.contains(x) && x != k {
                    let i = choose|i: int| 0 <= i < self.order@.len() && self.order@[i] == x;
                    assert(old(self).order@[i] == x);
                }
                if old(self).order@.contains(x) {
                    let i = choose|i: int| 0 <= i < old(self).order@.len() && old(self).order@[i]
                        == x;
                    assert(self.order@[i] == x);
                }
                if x == k {
                    assert(self.order@[self.order@.len() - 1] == k);
                }
            }
            assert(self.order@.to_set() =~= old(self).order@.to_set().insert(k));
            assert(self.order@.no_duplicates()) by {
                assert forall|i: int, j: int|
                    0 <= i < self.order@.len() && 0 <= j < self.order@.len() && i != j implies
                    self.order@[i] != self.order@[j] by {
                    if i == self.order@.len() - 1 {
                        assert(old(self).order@.contains(self.order@[j]));
                    } else if j == self.order@.len() - 1 {
                        assert(old(self).order@.contains(self.order@[i]));
                    }
                }
            }
        }
        if self.order.len() > self.cap {
            let ghost before = self.order@;
            let old_key = self.order.pop_front();
            match old_key {
                Some(ok) => {
                    self.seen.remove(&ok);
                    proof {
                        assert(self.order@ =~= before.skip(1));
                        assert(self.order@.to_set() =~= before.to_set().remove(ok)) by {
                            assert forall|x: u64| before.to_set().remove(ok).contains(x) implies
                                self.order@.contains(x) by {
                                let i = choose|i: int| 0 <= i < before.len() && before[i] == x;
                                assert(i != 0);
                                assert(self.order@[i - 1] == x);
                            }
                            assert forall|x: u64| self.order@.contains(x) implies before.to_set().remove(
                                ok,
                            ).contains(x) by {
                                let i = choose|i: int|
                                    0 <= i < self.order@.len() && self.order@[i] == x;
                                assert(before[i + 1] == x);
                                assert(before[0] == ok);
                            }
                        }
                    }
                },
                None => {},
            }
        }
        true
    }
}

/// Successor of a sequence number, wrapping at `u32::MAX`.
pub open spec fn wrap_inc(e: u32) -> u32 {
    if e == u32::MAX {
        0
    } else {
        (e + 1) as u32
    }
}

/// Removes the run of consecutive sequence numbers starting at `e` from `m`: the
/// payloads in order, what is left of `m`, and the first number not in the run.
pub open spec fn drain_run(m: Map<u32, Seq<u8>>, e: u32, fuel: nat) -> (
    Seq<Seq<u8>>,
    Map<u32, Seq<u8>>,
    u32,
)
    decreases fuel,
{
    if fuel == 0 || !m.contains_key(e) {
        (Seq::empty(), m, e)
    } else {
        let rest = drain_run(m.remove(e), wrap_inc(e), (fuel - 1) as nat);
        (seq![m[e]] + rest.0, rest.1, rest.2)
    }
}

/// Model of a [`StreamReorder`].
pub struct ReorderView {
    pub next_seq: Option<u32>,
    pub max_reorder: u32,
    pub buf: Map<u32, Seq<u8>>,
}

/// What `StreamReorder::push` delivers, and the reorder state after it.
pub open spec fn reorder_push(r: ReorderView, seq: u32, payload: Seq<u8>) -> (
    Seq<Seq<u8>>,
    ReorderView,
) {
    let e0 = match r.next_seq {
        Some(e) => e,
        None => seq,
    };
    if seq < e0 {
        (Seq::empty(), ReorderView { next_seq: Some(e0), ..r })
    } else {
        let reset = seq - e0 > r.max_reorder;
        let b1 = if reset {
            Map::empty()
        } else {
            r.buf
        };
        let e1 = if reset {
            seq
        } else {
            e0
        };
        let b2 = b1.insert(seq, payload);
        let d = drain_run(b2, e1, b2.dom().len());
        (d.0, ReorderView { next_seq: Some(d.2), max_reorder: r.max_reorder, buf: d.1 })
    }
}

/// Delivers one control stream's payloads in sequence order, buffering at most
/// `max_reorder` ahead of the next expected sequence number.
pub struct StreamReorder {
    /// `None` until first accepted sequence establishes the stream.
    next_seq: Option<u32>,
    max_reorder: u32,
    buf: BTreeMap<u32, Vec<u8>>,
}

impl View for StreamReorder {
    type V = ReorderView;

    closed spec fn view(&self) -> ReorderView {
        ReorderView {
            next_seq: self.next_seq,
            max_reorder: self.max_reorder,
            buf: self.buf@.map_values(|v: Vec<u8>| v@),
        }
    }
}

proof fn lemma_map_remove_len(m: Map<u32, Seq<u8>>, e: u32)
    requires
        m.dom().finite(),
        m.contains_key(e),
    ensures
        m.remove(e).dom().len() == m.dom().len() - 1,
        m.remove(e).dom().finite(),
{
    assert(m.remove(e).dom() =~= m.dom().remove(e));
}

impl StreamReorder {
    /// A stream that has seen nothing yet, buffering up to `max_reorder` ahead.
    pub fn new(max_reorder: u32) -> (r: Self)
        ensures
            r@.next_seq is None,
            r@.max_reorder == max_reorder,
            r@.buf == Map::<u32, Seq<u8>>::empty(),
    {
        let r = StreamReorder { next_seq: None, max_reorder, buf: BTreeMap::new() };
        assert(r@.buf =~= Map::<u32, Seq<u8>>::empty());
        r
    }

    /// Accepts `payload` as sequence number `seq` and returns the payloads now
    /// deliverable in order. Older numbers are dropped; a jump beyond `max_reorder`
    /// discards the buffer and restarts the stream at `seq`.
    pub fn push(&mut self, seq: u32, payload: Vec<u8>) -> (out: Vec<Vec<u8>>)
        ensures
            (views(out@), final(self)@) == reorder_push(old(self)@, seq, payload@),
    {
        let mut out: Vec<Vec<u8>> = Vec::new();
        if self.next_seq.is_none() {
            self.next_seq = Some(seq);
        }
        let mut expected = match self.next_seq {
            Some(e) => e,
            None => seq,
        };
        if seq < expected {
            assert(views(out@) =~= Seq::<Seq<u8>>::empty());
            return out;
        }
        if seq - expected > self.max_reorder {
            self.buf.clear();
            self.next_seq = Some(seq);
            expected = seq;
        }
        let ghost pv = payload@;
        self.buf.insert(seq, payload);
        let ghost b2 = self@.buf;
        let ghost e1 = expected;
        assert(b2 =~= (if seq - old(self)@.next_seq.unwrap_or(seq) > old(self)@.max_reorder {
            Map::<u32, Seq<u8>>::empty()
        } else {
            old(self)@.buf
        }).insert(seq, pv));
        let ghost target = drain_run(b2, e1, b2.dom().len());
        assert(views(out@) =~= Seq::<Seq<u8>>::empty());
        assert(self@.buf.dom() =~= self.buf@.dom());
        loop
            invariant
                self@.max_reorder == old(self)@.max_reorder,
                self@.buf.dom().finite(),
                views(out@) + drain_run(self@.buf, expected, self@.buf.dom().len()).0
                    == target.0,
                drain_run(self@.buf, expected, self@.buf.dom().len()).1 == target.1,
                drain_run(self@.buf, expected, self@.buf.dom().len()).2 == target.2,
            ensures
                !self@.buf.contains_key(expected),
            decreases self@.buf.dom().len(),
        {
            let ghost before = self@.buf;
            let ghost before_out = views(out@);
            let ghost old_e = expected;
            match self.buf.remove(&expected) {
                Some(p) => {
                    proof {
                        assert(self@.buf.dom() =~= self.buf@.dom());
                        lemma_map_remove_len(before, expected);
                        assert(self@.buf =~= before.remove(expected));
                        assert(p@ == before[expected]);
                    }
                    out.push(p);
                    expected = if expected == u32::MAX {
                        0
                    } else {
                        expected + 1
                    };
                    proof {
                        assert(views(out@) =~= before_out.push(before[old_e]));
                        assert(before.dom().contains(old_e));
                        assert(before.dom().len() > 0);
                        assert(expected == wrap_inc(old_e));
                        let rest = drain_run(self@.buf, expected, self@.buf.dom().len());
                        assert(drain_run(before, old_e, before.dom().len()).0 == seq![
                            before[old_e],
                        ] + rest.0);
                        assert(views(out@) + rest.0 =~= before_out + (seq![before[old_e]]
                            + rest.0));
                    }
                },
                None => {
                    proof {
                        assert(!before.contains_key(expected));
                        assert(self@.buf =~= before);
                        assert(views(out@) + Seq::<Seq<u8>>::empty() =~= views(out@));
                    }
                    break ;
                },
            }
        }
        self.next_seq = Some(expected);
        assert(views(out@) + Seq::<Seq<u8>>::empty() =~= views(out@));
        assert(views(out@) =~= target.0);
        out
    }
}


/// Minimum reassembly window from the first arriving slice (`now_ns` on this host).
pub const VIDEO_REASSEMBLY_BUDGET_MIN_NS: u64 = 50_000_000;

/// Maximum reassembly window.
pub const VIDEO_REASSEMBLY_BUDGET_MAX_NS: u64 = 2_000_000_000;

/// Window used when the header carries no deadline after its timestamp.
pub const VIDEO_REASSEMBLY_BUDGET_DEFAULT_NS: u64 = 500_000_000;

/// The reassembly window a slice asks for: its deadline minus its capture time,
/// clamped to `[MIN, MAX]`, or the default when the deadline is not after the capture.
pub open spec fn reassembly_budget(h: HeaderView) -> u64 {
    let d = header_deadline(h);
    let t = h.timestamp_ns;
    if d > t {
        let x = (d - t) as u64;
        if x < VIDEO_REASSEMBLY_BUDGET_MIN_NS {
            VIDEO_REASSEMBLY_BUDGET_MIN_NS
        } else if x > VIDEO_REASSEMBLY_BUDGET_MAX_NS {
            VIDEO_REASSEMBLY_BUDGET_MAX_NS
        } else {
            x
        }
    } else {
        VIDEO_REASSEMBLY_BUDGET_DEFAULT_NS
    }
}

fn video_reassembly_budget_ns(h: &LtpHeader) -> (r: u64)
    ensures
        r == reassembly_budget(h@),
{
    let d = h.deadline_ns();
    let t = h.timestamp_ns;
    if d > t {
        let x = d - t;
        if x < VIDEO_REASSEMBLY_BUDGET_MIN_NS {
            VIDEO_REASSEMBLY_BUDGET_MIN_NS
        } else if x > VIDEO_REASSEMBLY_BUDGET_MAX_NS {
            VIDEO_REASSEMBLY_BUDGET_MAX_NS
        } else {
            x
        }
    } else {
        VIDEO_REASSEMBLY_BUDGET_DEFAULT_NS
    }
}

/// Model of one partially received frame.
pub struct FrameView {
    pub slices: Map<u8, Seq<u8>>,
    pub expected: u8,
    /// Receiver-local cutoff after which the partial frame is dropped.
    pub drop_after_ns: u64,
}

/// A frame under reassembly.
pub struct FrameBuf {
    slices: HashMap<u8, Vec<u8>>,
    expected: u8,
    drop_after_ns: u64,
}

impl View for FrameBuf {
    type V = FrameView;

    closed spec fn view(&self) -> FrameView {
        FrameView {
            slices: self.slices@.map_values(|v: Vec<u8>| v@),
            expected: self.expected,
            drop_after_ns: self.drop_after_ns,
        }
    }
}

/// Model of a [`VideoReassembly`].
pub struct VideoView {
    pub frames: Map<u16, FrameView>,
    pub last_complete: Option<(u16, Seq<u8>)>,
}

/// The slices `0..n` that are present, concatenated in slice order.
pub open spec fn concat_present(m: Map<u8, Seq<u8>>, n: nat) -> Seq<u8>
    decreases n,
{
    if n == 0 {
        Seq::empty()
    } else {
        concat_present(m, (n - 1) as nat) + if m.contains_key((n - 1) as u8) {
            m[(n - 1) as u8]
        } else {
            Seq::empty()
        }
    }
}

/// The frame state before a slice of `frame_id` is added.
pub open spec fn frame_before(v: VideoView, frame_id: u16) -> FrameView {
    if v.frames.contains_key(frame_id) {
        v.frames[frame_id]
    } else {
        FrameView { slices: Map::empty(), expected: 0, drop_after_ns: 0 }
    }
}

/// The frame state after adding the slice carried by `h` at local time `now`.
pub open spec fn frame_after(v: VideoView, h: HeaderView, payload: Seq<u8>, now: u64) -> FrameView {
    let f0 = frame_before(v, h.frame_id);
    let cand = now.saturating_add(reassembly_budget(h));
    FrameView {
        slices: f0.slices.insert(h.slice_id, payload),
        expected: if f0.expected == 0 && h.slice_count > 0 {
            h.slice_count
        } else {
            f0.expected
        },
        drop_after_ns: if f0.drop_after_ns == 0 || cand > f0.drop_after_ns {
            cand
        } else {
            f0.drop_after_ns
        },
    }
}

/// A frame is complete once it knows its slice count and holds at least that many slices.
pub open spec fn frame_complete(f: FrameView) -> bool {
    f.expected > 0 && f.slices.dom().len() >= f.expected
}

/// What `VideoReassembly::ingest` returns, and the state after it.
pub open spec fn video_ingest(v: VideoView, h: HeaderView, payload: Seq<u8>, now: u64) -> (
    Option<Seq<u8>>,
    VideoView,
) {
    if h.payload_type != PayloadType::VideoSlice {
        (None, v)
    } else {
        let f = frame_after(v, h, payload, now);
        if frame_complete(f) {
            let combined = concat_present(f.slices, f.expected as nat);
            (
                Some(combined),
                VideoView {
                    frames: v.frames.remove(h.frame_id),
                    last_complete: Some((h.frame_id, combined)),
                },
            )
        } else {
            (None, VideoView { frames: v.frames.insert(h.frame_id, f), ..v })
        }
    }
}

/// A partial frame whose sliding deadline has passed at `now`.
pub open spec fn frame_stale(f: FrameView, now: u64) -> bool {
    f.drop_after_ns > 0 && now > f.drop_after_ns
}

/// The frames that `sweep_stale(now)` keeps.
pub open spec fn sweep_frames(frames: Map<u16, FrameView>, now: u64) -> Map<u16, FrameView> {
    frames.restrict(frames.dom().filter(|k: u16| !frame_stale(frames[k], now)))
}

/// Reassembles video frames from slices keyed by `(frame_id, slice_id)`.
pub struct VideoReassembly {
    frames: HashMap<u16, FrameBuf>,
    last_complete: Option<(u16, Vec<u8>)>,
}

impl View for VideoReassembly {
    type V = VideoView;

    closed spec fn view(&self) -> VideoView {
        VideoView {
            frames: self.frames@.map_values(|f: FrameBuf| f@),
            last_complete: match self.last_complete {
                Some((id, v)) => Some((id, v@)),
                None => None,
            },
        }
    }
}

impl Default for VideoReassembly {
    fn default() -> (v: Self)
        ensures
            v@.frames == Map::<u16, FrameView>::empty(),
            v@.last_complete is None,
    {
        let v = VideoReassembly { frames: HashMap::new(), last_complete: None };
        assert(v@.frames =~= Map::<u16, FrameView>::empty());
        v
    }
}

impl VideoReassembly {
    /// Adds a video slice received at local time `now_ns`; returns the frame's bytes
    /// when the slice completes it. Each slice extends the frame's drop deadline.
    pub fn ingest(&mut self, h: &LtpHeader, payload: &[u8], now_ns: u64) -> (r: Option<Vec<u8>>)
        ensures
            ({
                let (out, next) = video_ingest(old(self)@, h@, payload@, now_ns);
                &&& final(self)@ == next
                &&& match r {
                    Some(v) => out == Some(v@),
                    None => out is None,
                }
            }),
            r is None && h.payload_type == PayloadType::VideoSlice ==> final(self)@.frames.contains_key(
                h.frame_id,
            ) && final(self)@.frames[h.frame_id].drop_after_ns >= arrival_cutoff(h@, now_ns),
    {
        proof {
            lemma_cutoff_from_arrival(old(self)@, h@, payload@, now_ns, now_ns);
        }
        if h.payload_type != PayloadType::VideoSlice {
            return None;
        }
        let frame_id = h.frame_id;
        let ghost v0 = self@;
        let mut entry = match self.frames.remove(&frame_id) {
            Some(f) => f,
            None => FrameBuf { slices: HashMap::new(), expected: 0, drop_after_ns: 0 },
        };
        proof {
            assert(entry@.slices =~= frame_before(v0, frame_id).slices);
            assert(self@.frames =~= v0.frames.remove(frame_id));
        }
        if entry.expected == 0 && h.slice_count > 0 {
            entry.expected = h.slice_count;
        }
        let budget = video_reassembly_budget_ns(h);
        let cand = now_ns.saturating_add(budget);
        if entry.drop_after_ns == 0 || cand > entry.drop_after_ns {
            entry.drop_after_ns = cand;
        }
        let mut copy: Vec<u8> = Vec::new();
        push_all(&mut copy, payload);
        entry.slices.insert(h.slice_id, copy);
        let ghost f = frame_after(v0, h@, payload@, now_ns);
        assert(entry@.slices =~= f.slices);
        assert(entry@ == f);
        assert(entry.slices@.dom() =~= entry@.slices.dom());
        let done = entry.expected > 0 && entry.slices.len() >= entry.expected as usize;
        if done {
            let mut combined: Vec<u8> = Vec::new();
            let mut sid: u8 = 0;
            while sid < entry.expected
                invariant
                    sid <= entry.expected,
                    entry@ == f,
                    combined@ == concat_present(f.slices, sid as nat),
                decreases entry.expected - sid,
            {
                match entry.slices.get(&sid) {
                    Some(s) => {
                        push_all(&mut combined, s.as_slice());
                    },
                    None => {},
                }
                sid = sid + 1;
            }
            let mut keep: Vec<u8> = Vec::new();
            push_all(&mut keep, combined.as_slice());
            self.last_complete = Some((frame_id, keep));
            proof {
                assert(self@.frames =~= v0.frames.remove(frame_id));
            }
            Some(combined)
        } else {
            self.frames.insert(frame_id, entry);
            proof {
                assert(self@.frames =~= v0.frames.insert(frame_id, f));
            }
            None
        }
    }

    /// Drops partial frames whose sliding deadline has passed at `now_ns`.
    pub fn sweep_stale(&mut self, now_ns: u64)
        ensures
            final(self)@.frames == sweep_frames(old(self)@.frames, now_ns),
            final(self)@.last_complete == old(self)@.last_complete,
    {
        let ghost v0 = self@;
        let mut stale: Vec<u16> = Vec::new();
        let ghost keys_seq = spec_keys_iter(&self.frames).remaining().unref();
        assert(keys_seq.to_set() == self.frames@.dom());
        for k in it: self.frames.keys()
            invariant
                self@ == v0,
                it.seq().unref() == keys_seq,
                keys_seq.to_set() == self.frames@.dom(),
                forall|x: u16|
                    #[trigger] stale@.contains(x) ==> v0.frames.contains_key(x) && frame_stale(
                        v0.frames[x],
                        now_ns,
                    ),
                forall|j: int|
                    0 <= j < it.index() && v0.frames.contains_key(keys_seq[j]) && frame_stale(
                        v0.frames[keys_seq[j]],
                        now_ns,
                    ) ==> stale@.contains(#[trigger] keys_seq[j]),
        {
            let ghost idx = it.index();
            let ghost old_stale = stale@;
            match self.frames.get(k) {
                Some(f) => {
                    proof {
                        assert(v0.frames.contains_key(*k));
                        assert(v0.frames[*k] == f@);
                    }
                    if f.drop_after_ns > 0 && now_ns > f.drop_after_ns {
                        stale.push(*k);
                    }
                },
                None => {},
            }
            proof {
                assert forall|x: u16| #[trigger] stale@.contains(x) implies v0.frames.contains_key(x)
                    && frame_stale(v0.frames[x], now_ns) by {
                    if !old_stale.contains(x) {
                        assert(x == *k);
                    }
                }
                assert forall|j: int|
                    0 <= j < idx + 1 && v0.frames.contains_key(keys_seq[j]) && frame_stale(
                        v0.frames[keys_seq[j]],
                        now_ns,
                    ) implies stale@.contains(#[trigger] keys_seq[j]) by {
                    if j < idx {
                        assert(old_stale.contains(keys_seq[j]));
                        let w = choose|w: int| 0 <= w < old_stale.len() && old_stale[w] == keys_seq[j];
                        assert(stale@[w] == keys_seq[j]);
                    } else {
                        assert(stale@[stale@.len() - 1] == keys_seq[j]);
                    }
                }
            }
        }
        assert forall|x: u16| v0.frames.contains_key(x) && frame_stale(v0.frames[x], now_ns)
            implies #[trigger] stale@.contains(x) by {
            assert(keys_seq.to_set().contains(x));
            let j = choose|j: int| 0 <= j < keys_seq.len() && keys_seq[j] == x;
        }
        let ghost target = sweep_frames(v0.frames, now_ns);
        let mut i: usize = 0;
        while i < stale.len()
            invariant
                i <= stale@.len(),
                self@.last_complete == v0.last_complete,
                forall|x: u16|
                    #[trigger] self@.frames.contains_key(x) ==> v0.frames.contains_key(x)
                        && self@.frames[x] == v0.frames[x],
                forall|x: u16|
                    v0.frames.contains_key(x) && !stale@.contains(x)
                        ==> #[trigger] self@.frames.contains_key(x),
                forall|j: int| 0 <= j < i ==> !self@.frames.contains_key(#[trigger] stale@[j]),
                forall|x: u16| v0.frames.contains_key(x) && frame_stale(v0.frames[x], now_ns)
                    ==> #[trigger] stale@.contains(x),
            decreases stale@.len() - i,
        {
            let ghost before = self@.frames;
            let key = stale[i];
            self.frames.remove(&key);
            proof {
                assert(self@.frames =~= before.remove(key));
                assert forall|x: u16| v0.frames.contains_key(x) && !stale@.contains(x)
                    implies #[trigger] self@.frames.contains_key(x) by {
                    assert(x != key);
                }
            }
            i = i + 1;
        }
        assert forall|x: u16| #[trigger] stale@.contains(x) implies !self@.frames.contains_key(x) by {
            let j = choose|j: int| 0 <= j < stale@.len() && stale@[j] == x;
        }
        assert(self@.frames =~= target);
    }
}


/// What the receive path reports for one datagram.
pub enum ReceivedEvent {
    Duplicate,
    ControlOrdered(Vec<Vec<u8>>),
    VideoProgress { frame: Option<Vec<u8>> },
    Telemetry(Vec<u8>),
}

/// Model of a [`ReceivedEvent`].
pub enum EventView {
    Duplicate,
    ControlOrdered(Seq<Seq<u8>>),
    VideoProgress(Option<Seq<u8>>),
    Telemetry(Seq<u8>),
}

impl View for ReceivedEvent {
    type V = EventView;

    open spec fn view(&self) -> EventView {
        match self {
            ReceivedEvent::Duplicate => EventView::Duplicate,
            ReceivedEvent::ControlOrdered(v) => EventView::ControlOrdered(views(v@)),
            ReceivedEvent::VideoProgress { frame } => EventView::VideoProgress(
                match frame {
                    Some(f) => Some(f@),
                    None => None,
                },
            ),
            ReceivedEvent::Telemetry(p) => EventView::Telemetry(p@),
        }
    }
}

/// Control and haptic payloads on the control and haptic classes go through the
/// per-stream reorder buffers.
pub open spec fn routes_to_reorder(h: HeaderView) -> bool {
    (h.priority == PriorityClass::Control || h.priority == PriorityClass::Haptic) && (
    h.payload_type == PayloadType::Control || h.payload_type == PayloadType::Haptic)
}

/// The reorder state of `stream_id` before a push (a fresh one for a new stream).
pub open spec fn reorder_before(m: Map<u16, ReorderView>, stream_id: u16, max_reorder: u32) -> ReorderView {
    if m.contains_key(stream_id) {
        m[stream_id]
    } else {
        ReorderView { next_seq: None, max_reorder, buf: Map::empty() }
    }
}

/// Routes parsed packets: control/haptic → reorder; video → reassembly; the rest passes through.
pub struct ReceiveDemux {
    pub dedup: DedupTable,
    pub control_reorder: HashMap<u16, StreamReorder>,
    pub video: VideoReassembly,
    pub max_reorder: u32,
}

impl ReceiveDemux {
    /// The reorder state of every control stream seen so far.
    pub open spec fn reorders(&self) -> Map<u16, ReorderView> {
        self.control_reorder@.map_values(|r: StreamReorder| r@)
    }

    /// A demux remembering `dedup_cap` pairs and buffering `max_reorder` ahead per stream.
    pub fn new(dedup_cap: usize, max_reorder: u32) -> (d: Self)
        ensures
            d.dedup.wf(),
            d.dedup.keys() == Seq::<u64>::empty(),
            d.dedup.capacity() == dedup_cap,
            d.reorders() == Map::<u16, ReorderView>::empty(),
            d.video@.frames == Map::<u16, FrameView>::empty(),
            d.video@.last_complete is None,
            d.max_reorder == max_reorder,
    {
        let d = ReceiveDemux {
            dedup: DedupTable::new(dedup_cap),
            control_reorder: HashMap::new(),
            video: VideoReassembly::default(),
            max_reorder,
        };
        assert(d.reorders() =~= Map::<u16, ReorderView>::empty());
        d
    }

    /// Handles one parsed datagram received at local time `now_ns`. With
    /// `duplicate_mode`, a `(stream_id, seq)` already remembered is reported as a
    /// duplicate and changes nothing.
    pub fn handle_datagram(
        &mut self,
        header: LtpHeader,
        payload: Vec<u8>,
        now_ns: u64,
        duplicate_mode: bool,
    ) -> (r: ReceivedEvent)
        requires
            old(self).dedup.wf(),
        ensures
            final(self).dedup.wf(),
            final(self).dedup.capacity() == old(self).dedup.capacity(),
            final(self).max_reorder == old(self).max_reorder,
            (header.priority == PriorityClass::Control || header.priority == PriorityClass::Haptic)
                && (header.payload_type == PayloadType::Control || header.payload_type
                == PayloadType::Haptic) && !(duplicate_mode && old(self).dedup.keys().contains(
                dedup_key(header.stream_id, header.seq),
            )) ==> r@ == EventView::ControlOrdered(
                reorder_push(
                    reorder_before(old(self).reorders(), header.stream_id, old(self).max_reorder),
                    header.seq,
                    payload@,
                ).0,
            ),
            ({
                let key = dedup_key(header.stream_id, header.seq);
                let dup = duplicate_mode && old(self).dedup.keys().contains(key);
                if dup {
                    &&& r@ == EventView::Duplicate
                    &&& final(self).dedup.keys() == old(self).dedup.keys()
                    &&& final(self).reorders() == old(self).reorders()
                    &&& final(self).video@ == old(self).video@
                } else {
                    &&& final(self).dedup.keys() == if duplicate_mode {
                        dedup_admit(old(self).dedup.keys(), key, old(self).dedup.capacity())
                    } else {
                        old(self).dedup.keys()
                    }
                    &&& if routes_to_reorder(header@) {
                        let (out, next) = reorder_push(
                            reorder_before(
                                old(self).reorders(),
                                header.stream_id,
                                old(self).max_reorder,
                            ),
                            header.seq,
                            payload@,
                        );
                        &&& r@ == EventView::ControlOrdered(out)
                        &&& final(self).reorders() == old(self).reorders().insert(
                            header.stream_id,
                            next,
                        )
                        &&& final(self).video@ == old(self).video@
                    } else if header.payload_type == PayloadType::VideoSlice {
                        let (frame, next) = video_ingest(
                            old(self).video@,
                            header@,
                            payload@,
                            now_ns,
                        );
                        &&& r@ == EventView::VideoProgress(frame)
                        &&& final(self).video@ == next
                        &&& final(self).reorders() == old(self).reorders()
                    } else {
                        &&& r@ == EventView::Telemetry(payload@)
                        &&& final(self).reorders() == old(self).reorders()
                        &&& final(self).video@ == old(self).video@
                    }
                }
            }),
    {
        if duplicate_mode {
            if !self.dedup.first_arrival(header.stream_id, header.seq) {
                return ReceivedEvent::Duplicate;
            }
        }
        let is_ctrl_prio = match header.priority {
            PriorityClass::Control | PriorityClass::Haptic => true,
            _ => false,
        };
        let is_ctrl_type = match header.payload_type {
            PayloadType::Control | PayloadType::Haptic => true,
            _ => false,
        };
        if is_ctrl_prio && is_ctrl_type {
            let ghost m0 = self.reorders();
            let mut ro = match self.control_reorder.remove(&header.stream_id) {
                Some(r) => r,
                None => StreamReorder::new(self.max_reorder),
            };
            assert(ro@ == reorder_before(m0, header.stream_id, self.max_reorder)) by {
                if m0.contains_key(header.stream_id) {
                } else {
                    assert(ro@.buf =~= Map::<u32, Seq<u8>>::empty());
                }
            }
            let ordered = ro.push(header.seq, payload);
            let ghost rv = ro@;
            self.control_reorder.insert(header.stream_id, ro);
            assert(self.reorders() =~= m0.insert(header.stream_id, rv));
            ReceivedEvent::ControlOrdered(ordered)
        } else if header.payload_type == PayloadType::VideoSlice {
            let frame = self.video.ingest(&header, payload.as_slice(), now_ns);
            ReceivedEvent::VideoProgress { frame }
        } else {
            ReceivedEvent::Telemetry(payload)
        }
    }
}

/// In duplicate mode the first copy of `(stream_id, seq)` is remembered, so a second
/// copy arriving next is reported as a duplicate (given room to remember anything).
pub proof fn lemma_second_copy_is_duplicate(order: Seq<u64>, key: u64, cap: nat)
    requires
        cap > 0,
    ensures
        dedup_admit(order, key, cap).contains(key),
{
    let a = dedup_admit(order, key, cap);
    let pushed = order.push(key);
    if pushed.len() > cap {
        assert(a[a.len() - 1] == key);
    } else {
        assert(a[a.len() - 1] == key);
    }
}

/// Distinct `(stream_id, seq)` pairs are remembered under distinct keys: sequence
/// spaces of different streams never collide.
pub proof fn lemma_dedup_key_injective(s1: u16, q1: u32, s2: u16, q2: u32)
    requires
        dedup_key(s1, q1) == dedup_key(s2, q2),
    ensures
        s1 == s2,
        q1 == q2,
{
}


/// The last `n` elements of `s` (all of them when it is shorter).
pub open spec fn last_n(s: Seq<u64>, n: nat) -> Seq<u64> {
    if s.len() > n {
        s.skip(s.len() - n)
    } else {
        s
    }
}

/// `first_arrival` called with each of `keys` in turn on a table of capacity `cap`
/// holding `order`: the results, the keys accepted (in order), and the remembered keys.
pub open spec fn dedup_run(order: Seq<u64>, cap: nat, keys: Seq<u64>) -> (Seq<bool>, Seq<u64>, Seq<u64>)
    decreases keys.len(),
{
    if keys.len() == 0 {
        (Seq::empty(), Seq::empty(), order)
    } else {
        let (rs, acc, o) = dedup_run(order, cap, keys.drop_last());
        let k = keys.last();
        if o.contains(k) {
            (rs.push(false), acc, o)
        } else {
            (rs.push(true), acc.push(k), dedup_admit(o, k, cap))
        }
    }
}

/// Duplicate suppression over any sequence of arrivals: a fresh table of capacity `cap`
/// remembers exactly the last `cap` keys it accepted, and reports an arrival as new
/// exactly when its key is not among them.
pub proof fn lemma_dedup_window(cap: nat, keys: Seq<u64>)
    ensures
        ({
            let (rs, acc, o) = dedup_run(Seq::empty(), cap, keys);
            &&& o == last_n(acc, cap)
            &&& rs.len() == keys.len()
            &&& forall|i: int|
                0 <= i < keys.len() ==> #[trigger] rs[i] == !last_n(
                    dedup_run(Seq::empty(), cap, keys.take(i)).1,
                    cap,
                ).contains(keys[i])
        }),
    decreases keys.len(),
{
    if keys.len() > 0 {
        let pre = keys.drop_last();
        lemma_dedup_window(cap, pre);
        let (rs0, acc0, o0) = dedup_run(Seq::empty(), cap, pre);
        let k = keys.last();
        let n = keys.len() - 1;
        assert(keys.take(n) =~= pre);
        if !o0.contains(k) {
            assert(dedup_admit(o0, k, cap) =~= last_n(acc0.push(k), cap));
        }
        let (rs, acc, o) = dedup_run(Seq::empty(), cap, keys);
        assert forall|i: int| 0 <= i < keys.len() implies #[trigger] rs[i] == !last_n(
            dedup_run(Seq::empty(), cap, keys.take(i)).1,
            cap,
        ).contains(keys[i]) by {
            if i < n {
                assert(keys.take(i) =~= pre.take(i));
                assert(rs[i] == rs0[i]);
            }
        }
    } else {
        assert(last_n(Seq::<u64>::empty(), cap) =~= Seq::<u64>::empty());
    }
}

/// The stale-frame sweep: at `now` it keeps exactly the partial frames whose deadline has
/// not passed, unchanged; a frame it dropped is started afresh by its next slice.
pub proof fn lemma_sweep_drops_stale(v: VideoView, now: u64, frame_id: u16)
    ensures
        forall|f: u16|
            #[trigger] sweep_frames(v.frames, now).contains_key(f) <==> (v.frames.contains_key(f)
                && !frame_stale(v.frames[f], now)),
        forall|f: u16|
            #[trigger] sweep_frames(v.frames, now).contains_key(f) ==> sweep_frames(v.frames, now)[f]
                == v.frames[f],
        v.frames.contains_key(frame_id) && frame_stale(v.frames[frame_id], now) ==> frame_before(
            VideoView { frames: sweep_frames(v.frames, now), ..v },
            frame_id,
        ) == (FrameView { slices: Map::empty(), expected: 0, drop_after_ns: 0 }),
{
}

/// The slice numbers below `c`.
pub open spec fn slice_ids_below(c: nat) -> Set<u8> {
    Set::new(|x: u8| (x as nat) < c)
}

proof fn lemma_slice_ids_below(c: nat)
    requires
        c <= 256,
    ensures
        slice_ids_below(c).finite(),
        slice_ids_below(c).len() == c,
    decreases c,
{
    if c == 0 {
        assert(slice_ids_below(0) =~= Set::<u8>::empty());
    } else {
        lemma_slice_ids_below((c - 1) as nat);
        let top = (c - 1) as u8;
        assert(top as nat == c - 1);
        assert(slice_ids_below(c) =~= slice_ids_below((c - 1) as nat).insert(top));
    }
}

/// A finite set of slice numbers below `c` has at least `c` elements exactly when it
/// holds every number below `c`.
proof fn lemma_all_slices_by_count(ids: Set<u8>, c: nat)
    requires
        ids.finite(),
        c <= 256,
        forall|x: u8| #[trigger] ids.contains(x) ==> (x as nat) < c,
    ensures
        ids.len() >= c <==> forall|x: u8| (x as nat) < c ==> #[trigger] ids.contains(x),
{
    lemma_slice_ids_below(c);
    let full = slice_ids_below(c);
    assert(ids.subset_of(full));
    vstd::set_lib::lemma_len_subset(ids, full);
    if forall|x: u8| (x as nat) < c ==> #[trigger] ids.contains(x) {
        assert(ids =~= full);
    } else {
        let x = choose|x: u8| (x as nat) < c && !#[trigger] ids.contains(x);
        assert(ids.subset_of(full.remove(x)));
        vstd::set_lib::lemma_len_subset(ids, full.remove(x));
    }
}

/// The latest payload received for each slice number among the first `n` slices.
pub open spec fn latest_slices(hs: Seq<HeaderView>, ps: Seq<Seq<u8>>, n: nat) -> Map<u8, Seq<u8>>
    decreases n,
{
    if n == 0 {
        Map::empty()
    } else {
        latest_slices(hs, ps, (n - 1) as nat).insert(hs[n - 1].slice_id, ps[n - 1])
    }
}

/// Every slice number below `c` has a payload in `m`.
pub open spec fn all_slices(m: Map<u8, Seq<u8>>, c: nat) -> bool {
    forall|x: u8| (x as nat) < c ==> #[trigger] m.contains_key(x)
}

/// The first `n` slices ingested in order, the `j`-th with `hs[j]`, `ps[j]` at local time
/// `times[j]`: what the last ingest returned and the state after it.
pub open spec fn ingest_run(
    v: VideoView,
    hs: Seq<HeaderView>,
    ps: Seq<Seq<u8>>,
    times: Seq<u64>,
    n: nat,
) -> (Option<Seq<u8>>, VideoView)
    decreases n,
{
    if n == 0 {
        (None, v)
    } else {
        video_ingest(ingest_run(v, hs, ps, times, (n - 1) as nat).1, hs[n - 1], ps[n - 1], times[n - 1])
    }
}

/// The slices of one frame, all carrying the same slice count `c` and numbers below it,
/// ingested in any order, with repeats, at any times, without a sweep in between, into a
/// reassembly holding no partial frame under that id: each ingest returns nothing until
/// the one after which every number below `c` has arrived; that one returns the latest
/// payloads of slices `0..c` concatenated in slice order and forgets the frame. Other
/// frames are left as they were.
pub proof fn lemma_frame_reassembly(
    v: VideoView,
    hs: Seq<HeaderView>,
    ps: Seq<Seq<u8>>,
    times: Seq<u64>,
    frame_id: u16,
    c: u8,
    n: nat,
)
    requires
        c >= 1,
        n <= hs.len(),
        n <= ps.len(),
        n <= times.len(),
        !v.frames.contains_key(frame_id),
        forall|j: int|
            0 <= j < n ==> {
                &&& (#[trigger] hs[j]).frame_id == frame_id
                &&& hs[j].payload_type == PayloadType::VideoSlice
                &&& hs[j].slice_count == c
                &&& hs[j].slice_id < c
            },
        forall|k: nat| 1 <= k < n ==> !all_slices(#[trigger] latest_slices(hs, ps, k), c as nat),
    ensures
        ({
            let (out, w) = ingest_run(v, hs, ps, times, n);
            let m = latest_slices(hs, ps, n);
            &&& n > 0 && all_slices(m, c as nat) ==> out == Some(concat_present(m, c as nat))
                && !w.frames.contains_key(frame_id)
            &&& n == 0 || !all_slices(m, c as nat) ==> out is None
            &&& n > 0 && !all_slices(m, c as nat) ==> w.frames.contains_key(frame_id)
                && w.frames[frame_id].slices == m && w.frames[frame_id].expected == c
            &&& forall|g: u16|
                g != frame_id ==> (#[trigger] w.frames.contains_key(g) == v.frames.contains_key(g)
                    && (v.frames.contains_key(g) ==> w.frames[g] == v.frames[g]))
        }),
    decreases n,
{
    if n > 0 {
        let k = (n - 1) as nat;
        lemma_frame_reassembly(v, hs, ps, times, frame_id, c, k);
        let w0 = ingest_run(v, hs, ps, times, k).1;
        let h = hs[k as int];
        let m0 = latest_slices(hs, ps, k);
        let m = latest_slices(hs, ps, n);
        assert(h.frame_id == frame_id && h.payload_type == PayloadType::VideoSlice);
        let f0 = frame_before(w0, frame_id);
        let f = frame_after(w0, h, ps[k as int], times[k as int]);
        if k == 0 {
            assert(f0.slices =~= Map::<u8, Seq<u8>>::empty());
            assert(m0 =~= Map::<u8, Seq<u8>>::empty());
        } else {
            assert(!all_slices(m0, c as nat));
        }
        assert(f.slices == m);
        assert(f.expected == c);
        assert forall|x: u8| #[trigger] m.dom().contains(x) implies (x as nat) < c by {
            lemma_latest_slices_below(hs, ps, n, c, x);
        }
        lemma_latest_slices_finite(hs, ps, n);
        lemma_all_slices_by_count(m.dom(), c as nat);
        if all_slices(m, c as nat) {
            assert forall|x: u8| (x as nat) < (c as nat) implies #[trigger] m.dom().contains(x) by {
                assert(m.contains_key(x));
            }
        } else {
            if m.dom().len() >= c {
                assert forall|x: u8| (x as nat) < (c as nat) implies #[trigger] m.contains_key(x) by {
                    assert(m.dom().contains(x));
                }
            }
        }
    }
}

proof fn lemma_latest_slices_below(hs: Seq<HeaderView>, ps: Seq<Seq<u8>>, n: nat, c: u8, x: u8)
    requires
        n <= hs.len(),
        forall|j: int| 0 <= j < n ==> (#[trigger] hs[j]).slice_id < c,
        latest_slices(hs, ps, n).contains_key(x),
    ensures
        x < c,
    decreases n,
{
    if n > 0 && x != hs[n - 1].slice_id {
        lemma_latest_slices_below(hs, ps, (n - 1) as nat, c, x);
    }
}

proof fn lemma_latest_slices_finite(hs: Seq<HeaderView>, ps: Seq<Seq<u8>>, n: nat)
    ensures
        latest_slices(hs, ps, n).dom().finite(),
    decreases n,
{
    if n > 0 {
        lemma_latest_slices_finite(hs, ps, (n - 1) as nat);
    }
}

/// The earliest local time at which a partial frame may be dropped after a slice with
/// header `h` arrived at local time `now`: `now` plus the slice's own budget (its deadline
/// minus its capture time, kept within 50 ms .. 2 s, or 500 ms without a later deadline),
/// capped at the end of the clock. The sender's absolute deadline plays no part.
pub open spec fn arrival_cutoff(h: HeaderView, now: u64) -> int {
    let d: int = if h.extension.len() >= 8 {
        u64_at(h.extension, 0) as int
    } else {
        0
    };
    let ts: int = h.timestamp_ns as int;
    let budget: int = if d > ts {
        if d - ts < 50_000_000 {
            50_000_000
        } else if d - ts > 2_000_000_000 {
            2_000_000_000
        } else {
            d - ts
        }
    } else {
        500_000_000
    };
    if now + budget > u64::MAX {
        u64::MAX as int
    } else {
        now + budget
    }
}

/// Partial frames expire on the receiver's clock: after a video slice arrives at local
/// time `now` without completing its frame, the frame's drop cutoff is at least
/// [`arrival_cutoff`], so a sweep at any time `t` up to `now` plus the slice's budget keeps
/// the frame, however far the receiver's clock is ahead of the sender's.
pub proof fn lemma_cutoff_from_arrival(v: VideoView, h: HeaderView, p: Seq<u8>, now: u64, t: u64)
    ensures
        ({
            let (out, w) = video_ingest(v, h, p, now);
            h.payload_type == PayloadType::VideoSlice && out is None ==> {
                &&& w.frames.contains_key(h.frame_id)
                &&& w.frames[h.frame_id].drop_after_ns >= arrival_cutoff(h, now)
                &&& t <= arrival_cutoff(h, now) ==> sweep_frames(w.frames, t).contains_key(h.frame_id)
            }
        }),
{
    let (out, w) = video_ingest(v, h, p, now);
    if h.payload_type == PayloadType::VideoSlice && out is None {
        let f = frame_after(v, h, p, now);
        assert(w.frames[h.frame_id] == f);
        let cand = now.saturating_add(reassembly_budget(h));
        assert(cand >= arrival_cutoff(h, now));
        assert(f.drop_after_ns >= cand);
        if t <= arrival_cutoff(h, now) {
            assert(!frame_stale(f, t));
            assert(sweep_frames(w.frames, t).dom().contains(h.frame_id));
        }
    }
}

/// `e + i` in the wrapping sequence space of `u32`.
pub open spec fn seq_plus(e: u32, i: nat) -> u32 {
    ((e as nat + i) % 0x1_0000_0000) as u32
}

/// A drained run holds the payloads of consecutive sequence numbers starting at `e`,
/// all of which were buffered; the run ends at the first number no longer buffered.
pub proof fn lemma_drain_consecutive(m: Map<u32, Seq<u8>>, e: u32, fuel: nat)
    requires
        m.dom().finite(),
        fuel == m.dom().len(),
    ensures
        ({
            let (out, rest, e2) = drain_run(m, e, fuel);
            &&& e2 == seq_plus(e, out.len())
            &&& !rest.contains_key(e2)
            &&& forall|i: nat| i < out.len() ==> m.contains_key(#[trigger] seq_plus(e, i))
            &&& forall|i: int| 0 <= i < out.len() ==> #[trigger] out[i] == m[seq_plus(e, i as nat)]
        }),
    decreases fuel,
{
    if fuel == 0 || !m.contains_key(e) {
        if fuel == 0 {
            assert(m.dom() =~= Set::<u32>::empty()) by {
                if exists|x: u32| m.dom().contains(x) {
                    let x = choose|x: u32| m.dom().contains(x);
                    assert(m.dom().len() > 0);
                }
            }
        }
        assert(seq_plus(e, 0) == e);
    } else {
        let m2 = m.remove(e);
        lemma_map_remove_len(m, e);
        lemma_drain_consecutive(m2, wrap_inc(e), (fuel - 1) as nat);
        let (out2, rest2, e3) = drain_run(m2, wrap_inc(e), (fuel - 1) as nat);
        let out = drain_run(m, e, fuel).0;
        assert(out == seq![m[e]] + out2);
        assert forall|i: nat| seq_plus(wrap_inc(e), i) == seq_plus(e, i + 1) by {}
        assert(seq_plus(wrap_inc(e), out2.len()) == seq_plus(e, out2.len() + 1));
        assert(out.len() == out2.len() + 1);
        assert(drain_run(m, e, fuel).2 == e3);
        assert(drain_run(m, e, fuel).1 == rest2);
        assert forall|i: nat| i < out.len() implies m.contains_key(#[trigger] seq_plus(e, i)) by {
            if i == 0 {
                assert(seq_plus(e, 0) == e);
            } else {
                assert(seq_plus(wrap_inc(e), (i - 1) as nat) == seq_plus(e, i));
                assert(m2.contains_key(seq_plus(wrap_inc(e), (i - 1) as nat)));
            }
        }
        assert forall|i: int| 0 <= i < out.len() implies #[trigger] out[i] == m[seq_plus(
            e,
            i as nat,
        )] by {
            if i == 0 {
                assert(seq_plus(e, 0) == e);
            } else {
                assert(out[i] == out2[i - 1]);
                assert(seq_plus(wrap_inc(e), (i - 1) as nat) == seq_plus(e, i as nat));
                assert(m2.contains_key(seq_plus(wrap_inc(e), (i - 1) as nat)));
            }
        }
    }
}

/// The sequence number from which a push delivers: the expected one, or `seq` when the
/// stream starts or jumps beyond the reorder window.
pub open spec fn push_start(r: ReorderView, seq: u32) -> u32 {
    let e0 = match r.next_seq {
        Some(e) => e,
        None => seq,
    };
    if seq >= e0 && seq - e0 > r.max_reorder {
        seq
    } else {
        e0
    }
}

/// Control payloads are delivered in sequence order: a push delivers the payloads of
/// consecutive sequence numbers from `push_start`, each the one buffered (or just pushed)
/// for its number, and the next expected number moves past them. A number older than
/// the expected one delivers nothing; the expected number itself is delivered at once.
pub proof fn lemma_reorder_delivers_in_order(r: ReorderView, seq: u32, payload: Seq<u8>)
    requires
        r.buf.dom().finite(),
    ensures
        ({
            let (out, next) = reorder_push(r, seq, payload);
            let start = push_start(r, seq);
            let e0 = match r.next_seq {
                Some(e) => e,
                None => seq,
            };
            let buffered = (if start == seq && seq != e0 {
                Map::empty()
            } else {
                r.buf
            }).insert(seq, payload);
            &&& seq < e0 ==> out.len() == 0 && next.buf == r.buf
            &&& seq >= e0 ==> {
                &&& next.next_seq == Some(seq_plus(start, out.len()))
                &&& forall|i: nat|
                    i < out.len() ==> buffered.contains_key(#[trigger] seq_plus(start, i))
                &&& forall|i: int|
                    0 <= i < out.len() ==> #[trigger] out[i] == buffered[seq_plus(start, i as nat)]
                &&& seq == start ==> out.len() >= 1 && out[0] == payload
            }
            &&& next.max_reorder == r.max_reorder
            &&& next.buf.dom().finite()
        }),
{
    let e0 = match r.next_seq {
        Some(e) => e,
        None => seq,
    };
    if seq >= e0 {
        let reset = seq - e0 > r.max_reorder;
        let b1 = if reset {
            Map::<u32, Seq<u8>>::empty()
        } else {
            r.buf
        };
        let e1 = if reset {
            seq
        } else {
            e0
        };
        let b2 = b1.insert(seq, payload);
        lemma_drain_consecutive(b2, e1, b2.dom().len());
        lemma_drain_rest_finite(b2, e1, b2.dom().len());
        assert(seq_plus(seq, 0) == seq);
        let d = drain_run(b2, e1, b2.dom().len());
        assert(reorder_push(r, seq, payload).0 == d.0);
        assert(push_start(r, seq) == e1);
        if seq == e1 {
            assert(b2.contains_key(seq));
            assert(b2.dom().len() > 0);
            assert(d.0[0] == payload);
        }
    } else {
        assert(reorder_push(r, seq, payload).1.buf == r.buf);
    }
}

proof fn lemma_drain_rest_finite(m: Map<u32, Seq<u8>>, e: u32, fuel: nat)
    requires
        m.dom().finite(),
    ensures
        drain_run(m, e, fuel).1.dom().finite(),
    decreases fuel,
{
    if fuel > 0 && m.contains_key(e) {
        assert(m.remove(e).dom() =~= m.dom().remove(e));
        lemma_drain_rest_finite(m.remove(e), wrap_inc(e), (fuel - 1) as nat);
    }
}

/// What is left after draining a run holds only entries of `m` outside the run, and the
/// run ends `out.len()` numbers after `e` (no wrap when every number is below `u32::MAX`).
proof fn lemma_drain_rest(m: Map<u32, Seq<u8>>, e: u32, fuel: nat)
    requires
        m.dom().finite(),
        forall|k: u32| #[trigger] m.contains_key(k) ==> k < u32::MAX,
    ensures
        ({
            let (out, rest, e2) = drain_run(m, e, fuel);
            &&& e2 as int == e as int + out.len()
            &&& forall|k: u32| #[trigger] rest.contains_key(k) ==> m.contains_key(k) && rest[k]
                == m[k] && !(e <= k < e as int + out.len())
        }),
    decreases fuel,
{
    if fuel > 0 && m.contains_key(e) {
        let m2 = m.remove(e);
        assert(m2.dom() =~= m.dom().remove(e));
        lemma_drain_rest(m2, wrap_inc(e), (fuel - 1) as nat);
        assert(wrap_inc(e) as int == e as int + 1);
    }
}

/// `ps[j]` was pushed with sequence number `k` by one of the first `n` pushes.
pub open spec fn was_pushed(seqs: Seq<u32>, ps: Seq<Seq<u8>>, n: nat, k: u32, p: Seq<u8>) -> bool {
    exists|j: int| 0 <= j < n && seqs[j] == k && #[trigger] ps[j] == p
}

/// The first `n` pushes (`seqs[j]`, `ps[j]`) applied to reorder state `r`: the sequence
/// number of every payload delivered, the payloads delivered, and the final state.
pub open spec fn reorder_run(r: ReorderView, seqs: Seq<u32>, ps: Seq<Seq<u8>>, n: nat) -> (
    Seq<u32>,
    Seq<Seq<u8>>,
    ReorderView,
)
    decreases n,
{
    if n == 0 {
        (Seq::empty(), Seq::empty(), r)
    } else {
        let (tags, ds, r1) = reorder_run(r, seqs, ps, (n - 1) as nat);
        let (out, r2) = reorder_push(r1, seqs[n - 1], ps[n - 1]);
        (
            tags + Seq::new(out.len(), |i: int| seq_plus(push_start(r1, seqs[n - 1]), i as nat)),
            ds + out,
            r2,
        )
    }
}

proof fn lemma_reorder_run_inv(max_reorder: u32, seqs: Seq<u32>, ps: Seq<Seq<u8>>, n: nat)
    requires
        n <= seqs.len(),
        n <= ps.len(),
        forall|j: int| 0 <= j < n ==> #[trigger] seqs[j] < u32::MAX,
    ensures
        ({
            let r0 = ReorderView { next_seq: None, max_reorder, buf: Map::empty() };
            let (tags, ds, r) = reorder_run(r0, seqs, ps, n);
            &&& tags.len() == ds.len()
            &&& forall|i: int, l: int| 0 <= i < l < tags.len() ==> tags[i] < tags[l]
            &&& forall|i: int| 0 <= i < ds.len() ==> was_pushed(seqs, ps, n, tags[i], #[trigger] ds[i])
            &&& r.max_reorder == max_reorder
            &&& r.buf.dom().finite()
            &&& r.next_seq is None ==> tags.len() == 0 && r.buf == Map::<u32, Seq<u8>>::empty()
            &&& r.next_seq matches Some(e) ==> (forall|i: int| 0 <= i < tags.len() ==> tags[i] < e)
                && (forall|k: u32| #[trigger] r.buf.contains_key(k) ==> k >= e)
            &&& forall|k: u32| #[trigger] r.buf.contains_key(k) ==> k < u32::MAX && was_pushed(
                seqs,
                ps,
                n,
                k,
                r.buf[k],
            )
        }),
    decreases n,
{
    let r0 = ReorderView { next_seq: None, max_reorder, buf: Map::empty() };
    if n == 0 {
        assert(r0.buf.dom() =~= Set::<u32>::empty());
    } else {
        let k = (n - 1) as nat;
        lemma_reorder_run_inv(max_reorder, seqs, ps, k);
        let (tags, ds, r1) = reorder_run(r0, seqs, ps, k);
        let seq = seqs[k as int];
        let p = ps[k as int];
        let (out, r2) = reorder_push(r1, seq, p);
        let (tags2, ds2, r2b) = reorder_run(r0, seqs, ps, n);
        assert(r2b == r2);
        let e0 = match r1.next_seq {
            Some(e) => e,
            None => seq,
        };
        assert forall|i: int| 0 <= i < ds.len() implies was_pushed(seqs, ps, n, tags[i], #[trigger] ds[i]) by {
            assert(was_pushed(seqs, ps, k, tags[i], ds[i]));
            let j = choose|j: int| 0 <= j < k && seqs[j] == tags[i] && #[trigger] ps[j] == ds[i];
            assert(ps[j] == ds[i]);
        }
        assert forall|kk: u32| #[trigger] r1.buf.contains_key(kk) implies was_pushed(seqs, ps, n, kk, r1.buf[kk]) by {
            let j = choose|j: int| 0 <= j < k && seqs[j] == kk && #[trigger] ps[j] == r1.buf[kk];
            assert(ps[j] == r1.buf[kk]);
        }
        if seq < e0 {
            assert(out =~= Seq::<Seq<u8>>::empty());
            assert(tags2 =~= tags);
            assert(ds2 =~= ds);
        } else {
            let reset = seq - e0 > r1.max_reorder;
            let b1 = if reset {
                Map::<u32, Seq<u8>>::empty()
            } else {
                r1.buf
            };
            let e1 = if reset {
                seq
            } else {
                e0
            };
            assert(push_start(r1, seq) == e1);
            let b2 = b1.insert(seq, p);
            assert(b2.dom().finite()) by {
                assert(b2.dom() =~= b1.dom().insert(seq));
                if reset {
                    assert(b1.dom() =~= Set::<u32>::empty());
                }
            }
            assert forall|kk: u32| #[trigger] b2.contains_key(kk) implies kk < u32::MAX && kk >= e1
                && was_pushed(seqs, ps, n, kk, b2[kk]) by {
                if kk == seq {
                    assert(ps[k as int] == p);
                } else {
                    assert(r1.buf.contains_key(kk));
                }
            }
            let fuel = b2.dom().len();
            lemma_drain_consecutive(b2, e1, fuel);
            lemma_drain_rest(b2, e1, fuel);
            lemma_drain_rest_finite(b2, e1, fuel);
            let d = drain_run(b2, e1, fuel);
            assert(out == d.0);
            assert(r2.buf == d.1);
            assert(r2.next_seq == Some(d.2));
            let newt = Seq::new(out.len(), |i: int| seq_plus(e1, i as nat));
            assert(tags2 == tags + newt);
            assert(ds2 == ds + out);
            assert forall|i: int| 0 <= i < out.len() implies newt[i] as int == e1 as int + i && b2.contains_key(newt[i])
                && out[i] == b2[newt[i]] by {
                assert(b2.contains_key(seq_plus(e1, i as nat)));
                assert(seq_plus(e1, i as nat) as int == e1 as int + i);
            }
            assert forall|i: int, l: int| 0 <= i < l < tags2.len() implies tags2[i] < tags2[l] by {
                if l >= tags.len() {
                    assert(tags2[l] == newt[l - tags.len()]);
                    if i < tags.len() {
                        assert(tags2[i] == tags[i]);
                        if r1.next_seq is None {
                            assert(tags.len() == 0);
                        }
                    } else {
                        assert(tags2[i] == newt[i - tags.len()]);
                    }
                } else {
                    assert(tags2[i] == tags[i] && tags2[l] == tags[l]);
                }
            }
            assert forall|i: int| 0 <= i < ds2.len() implies was_pushed(seqs, ps, n, tags2[i], #[trigger] ds2[i]) by {
                if i < ds.len() {
                    assert(ds2[i] == ds[i] && tags2[i] == tags[i]);
                } else {
                    let ii = i - ds.len();
                    assert(ds2[i] == out[ii] && tags2[i] == newt[ii]);
                    assert(was_pushed(seqs, ps, n, newt[ii], b2[newt[ii]]));
                }
            }
            assert forall|i: int| 0 <= i < tags2.len() implies tags2[i] < d.2 by {
                if i < tags.len() {
                    assert(tags2[i] == tags[i]);
                    if r1.next_seq is None {
                        assert(tags.len() == 0);
                    }
                } else {
                    assert(tags2[i] == newt[i - tags.len()]);
                }
            }
            assert forall|kk: u32| #[trigger] r2.buf.contains_key(kk) implies kk >= d.2 && kk < u32::MAX
                && was_pushed(seqs, ps, n, kk, r2.buf[kk]) by {
                assert(b2.contains_key(kk));
            }
        }
    }
}

/// Ordered delivery over any sequence of pushes into a fresh control stream whose
/// sequence numbers stay below `u32::MAX`: the payloads delivered, in order, carry
/// strictly increasing sequence numbers, and each is a payload pushed with that number.
pub proof fn lemma_reorder_stream_in_order(max_reorder: u32, seqs: Seq<u32>, ps: Seq<Seq<u8>>)
    requires
        seqs.len() == ps.len(),
        forall|j: int| 0 <= j < seqs.len() ==> #[trigger] seqs[j] < u32::MAX,
    ensures
        ({
            let r0 = ReorderView { next_seq: None, max_reorder, buf: Map::empty() };
            let (tags, ds, r) = reorder_run(r0, seqs, ps, seqs.len());
            &&& tags.len() == ds.len()
            &&& forall|i: int, l: int| 0 <= i < l < tags.len() ==> tags[i] < tags[l]
            &&& forall|i: int|
                0 <= i < ds.len() ==> was_pushed(seqs, ps, seqs.len(), tags[i], #[trigger] ds[i])
        }),
{
    lemma_reorder_run_inv(max_reorder, seqs, ps, seqs.len());
}

} // verus!
