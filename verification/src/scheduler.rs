//! Strict priority scheduler with video EDF, deadline purge, and congestion cap.

use std::collections::VecDeque;
use vstd::prelude::*;

use crate::header::{PayloadType, PriorityClass};

verus! {

broadcast use vstd::std_specs::vecdeque::group_vec_dequeue_axioms;

/// When the video queue exceeds this many datagrams, the earliest-deadline ones are
/// shed until it is back at the cap.
pub const VIDEO_QUEUE_CAP: usize = 1024;

#[derive(Clone, Debug, Eq, PartialEq)]
pub struct ScheduledPacket {
    pub priority: PriorityClass,
    pub payload_type: PayloadType,
    pub datagram: Vec<u8>,
    /// For video slices: deadline (e.g. capture time + budget); lower is earlier.
    pub deadline_key: u64,
}

/// Model of a [`ScheduledPacket`].
pub struct PacketView {
    pub priority: PriorityClass,
    pub payload_type: PayloadType,
    pub datagram: Seq<u8>,
    pub deadline_key: u64,
}

impl View for ScheduledPacket {
    type V = PacketView;

    open spec fn view(&self) -> PacketView {
        PacketView {
            priority: self.priority,
            payload_type: self.payload_type,
            datagram: self.datagram@,
            deadline_key: self.deadline_key,
        }
    }
}

/// The packets' models, in queue order.
pub open spec fn packet_views(s: Seq<ScheduledPacket>) -> Seq<PacketView> {
    s.map_values(|p: ScheduledPacket| p@)
}

/// Lexicographic order on byte strings (a proper prefix sorts first).
pub open spec fn lex_lt(a: Seq<u8>, b: Seq<u8>) -> bool
    decreases a.len(),
{
    if a.len() == 0 {
        b.len() > 0
    } else if b.len() == 0 {
        false
    } else if a[0] != b[0] {
        a[0] < b[0]
    } else {
        lex_lt(a.drop_first(), b.drop_first())
    }
}

/// `a` leaves the video queue before `b`: earlier deadline first, then the more urgent
/// class, then the lexicographically greater datagram.
pub open spec fn pops_before(a: PacketView, b: PacketView) -> bool {
    a.deadline_key < b.deadline_key || (a.deadline_key == b.deadline_key && (
    a.priority.spec_to_u8() < b.priority.spec_to_u8() || (a.priority.spec_to_u8()
        == b.priority.spec_to_u8() && lex_lt(b.datagram, a.datagram))))
}

/// `s[i]` may leave the video queue next: no queued packet pops before it.
pub open spec fn is_next_video(s: Seq<PacketView>, i: int) -> bool {
    &&& 0 <= i < s.len()
    &&& forall|j: int| 0 <= j < s.len() ==> !pops_before(#[trigger] s[j], s[i])
}

proof fn lemma_lex_lt_transitive(a: Seq<u8>, b: Seq<u8>, c: Seq<u8>)
    requires
        lex_lt(a, b),
        lex_lt(b, c),
    ensures
        lex_lt(a, c),
    decreases a.len(),
{
    if a.len() > 0 && b.len() > 0 && c.len() > 0 && a[0] == b[0] && b[0] == c[0] {
        lemma_lex_lt_transitive(a.drop_first(), b.drop_first(), c.drop_first());
    }
}

proof fn lemma_pops_before_transitive(a: PacketView, b: PacketView, c: PacketView)
    requires
        pops_before(a, b),
        pops_before(b, c),
    ensures
        pops_before(a, c),
{
    if a.deadline_key == b.deadline_key && b.deadline_key == c.deadline_key
        && a.priority.spec_to_u8() == b.priority.spec_to_u8() && b.priority.spec_to_u8()
        == c.priority.spec_to_u8() {
        lemma_lex_lt_transitive(c.datagram, b.datagram, a.datagram);
    }
}

fn lex_lt_exec(a: &[u8], b: &[u8]) -> (r: bool)
    ensures
        r == lex_lt(a@, b@),
{
    let mut i: usize = 0;
    assert(a@.skip(0) =~= a@);
    assert(b@.skip(0) =~= b@);
    while i < a.len() && i < b.len()
        invariant
            i <= a@.len(),
            i <= b@.len(),
            lex_lt(a@, b@) == lex_lt(a@.skip(i as int), b@.skip(i as int)),
        decreases a@.len() - i,
    {
        if a[i] != b[i] {
            return a[i] < b[i];
        }
        assert(a@.skip(i as int).drop_first() =~= a@.skip(i + 1));
        assert(b@.skip(i as int).drop_first() =~= b@.skip(i + 1));
        i = i + 1;
    }
    i == a.len() && i < b.len()
}

fn pops_before_exec(a: &ScheduledPacket, b: &ScheduledPacket) -> (r: bool)
    ensures
        r == pops_before(a@, b@),
{
    if a.deadline_key != b.deadline_key {
        return a.deadline_key < b.deadline_key;
    }
    let pa = a.priority.to_u8();
    let pb = b.priority.to_u8();
    if pa != pb {
        return pa < pb;
    }
    lex_lt_exec(b.datagram.as_slice(), a.datagram.as_slice())
}

/// Index of a video packet that may leave next.
fn next_video_index(v: &Vec<ScheduledPacket>) -> (r: usize)
    requires
        v@.len() > 0,
    ensures
        is_next_video(packet_views(v@), r as int),
{
    let ghost s = packet_views(v@);
    let mut best: usize = 0;
    let mut i: usize = 1;
    proof {
        lemma_lex_lt_irreflexive(s[0].datagram);
    }
    while i < v.len()
        invariant
            s == packet_views(v@),
            best < i <= v@.len(),
            forall|j: int| 0 <= j < i ==> !pops_before(#[trigger] s[j], s[best as int]),
        decreases v@.len() - i,
    {
        if pops_before_exec(&v[i], &v[best]) {
            proof {
                assert forall|j: int| 0 <= j < i + 1 implies !pops_before(
                    #[trigger] s[j],
                    s[i as int],
                ) by {
                    if j < i && pops_before(s[j], s[i as int]) {
                        lemma_pops_before_transitive(s[j], s[i as int], s[best as int]);
                    }
                    if j == i {
                        assert(!(s[j].deadline_key < s[j].deadline_key));
                        lemma_lex_lt_irreflexive(s[j].datagram);
                    }
                }
            }
            best = i;
        } else {
            proof {
                assert(!pops_before(s[i as int], s[best as int]));
            }
        }
        i = i + 1;
    }
    best
}

proof fn lemma_lex_lt_irreflexive(a: Seq<u8>)
    ensures
        !lex_lt(a, a),
    decreases a.len(),
{
    if a.len() > 0 {
        lemma_lex_lt_irreflexive(a.drop_first());
    }
}

/// Video packets still worth sending at `now_ns`: deadline after it.
pub open spec fn live_at(now_ns: u64) -> spec_fn(PacketView) -> bool {
    |q: PacketView| q.deadline_key > now_ns
}

/// Model of a [`PriorityScheduler`].
pub struct SchedulerView {
    pub control: Seq<PacketView>,
    pub haptic: Seq<PacketView>,
    /// Queued video, in no particular order: `pop_next` picks by deadline.
    pub video: Seq<PacketView>,
    pub telemetry: Seq<PacketView>,
    pub telemetry_bytes_budget: usize,
    pub telemetry_sent_this_tick: usize,
    pub video_dropped: u64,
}

pub struct PriorityScheduler {
    control: VecDeque<ScheduledPacket>,
    haptic: VecDeque<ScheduledPacket>,
    video: Vec<ScheduledPacket>,
    telemetry: VecDeque<ScheduledPacket>,
    /// Bytes per interval budget for telemetry to avoid starvation (0 = strict no guard).
    pub telemetry_bytes_budget: usize,
    telemetry_sent_this_tick: usize,
    /// Cumulative count of video datagrams dropped by deadline purge or cap overflow.
    pub video_dropped: u64,
}

impl View for PriorityScheduler {
    type V = SchedulerView;

    closed spec fn view(&self) -> SchedulerView {
        SchedulerView {
            control: packet_views(self.control@),
            haptic: packet_views(self.haptic@),
            video: packet_views(self.video@),
            telemetry: packet_views(self.telemetry@),
            telemetry_bytes_budget: self.telemetry_bytes_budget,
            telemetry_sent_this_tick: self.telemetry_sent_this_tick,
            video_dropped: self.video_dropped,
        }
    }
}

/// Total number of queued datagrams.
pub open spec fn pending(s: SchedulerView) -> nat {
    s.control.len() + s.haptic.len() + s.video.len() + s.telemetry.len()
}

/// The video queue never holds more than the cap.
pub open spec fn sched_wf(s: SchedulerView) -> bool {
    s.video.len() <= VIDEO_QUEUE_CAP
}

impl Default for PriorityScheduler {
    fn default() -> (s: Self)
        ensures
            s.wf(),
            s@.control.len() == 0,
            s@.haptic.len() == 0,
            s@.video.len() == 0,
            s@.telemetry.len() == 0,
            s@.telemetry_bytes_budget == 0,
            s@.telemetry_sent_this_tick == 0,
            s@.video_dropped == 0,
    {
        PriorityScheduler {
            control: VecDeque::new(),
            haptic: VecDeque::new(),
            video: Vec::new(),
            telemetry: VecDeque::new(),
            telemetry_bytes_budget: 0,
            telemetry_sent_this_tick: 0,
            video_dropped: 0,
        }
    }
}

impl PriorityScheduler {
    /// The video queue holds at most [`VIDEO_QUEUE_CAP`] datagrams.
    pub open spec fn wf(&self) -> bool {
        sched_wf(self@)
    }

    /// Queues `p` by its priority class. A video queue over the cap sheds the packet
    /// that would leave it next (the earliest deadline) and counts it as dropped.
    pub fn enqueue(&mut self, p: ScheduledPacket)
        requires
            old(self).wf(),
            p.priority == PriorityClass::Video && old(self)@.video.len() == VIDEO_QUEUE_CAP
                ==> old(self)@.video_dropped < u64::MAX,
        ensures
            final(self).wf(),
            final(self)@.video.len() <= VIDEO_QUEUE_CAP,
            final(self)@.telemetry_bytes_budget == old(self)@.telemetry_bytes_budget,
            final(self)@.telemetry_sent_this_tick == old(self)@.telemetry_sent_this_tick,
            final(self)@.control == if p.priority == PriorityClass::Control {
                old(self)@.control.push(p@)
            } else {
                old(self)@.control
            },
            final(self)@.haptic == if p.priority == PriorityClass::Haptic {
                old(self)@.haptic.push(p@)
            } else {
                old(self)@.haptic
            },
            final(self)@.telemetry == if p.priority == PriorityClass::Telemetry {
                old(self)@.telemetry.push(p@)
            } else {
                old(self)@.telemetry
            },
            p.priority != PriorityClass::Video ==> final(self)@.video == old(self)@.video
                && final(self)@.video_dropped == old(self)@.video_dropped,
            p.priority == PriorityClass::Video && old(self)@.video.len() < VIDEO_QUEUE_CAP
                ==> final(self)@.video == old(self)@.video.push(p@) && final(self)@.video_dropped
                == old(self)@.video_dropped,
            p.priority == PriorityClass::Video && old(self)@.video.len() == VIDEO_QUEUE_CAP
                ==> final(self)@.video_dropped == old(self)@.video_dropped + 1 && exists|i: int|
                is_next_video(old(self)@.video.push(p@), i) && final(self)@.video == old(
                self,
            )@.video.push(p@).remove(i),
    {
        let ghost pv = p@;
        match p.priority {
            PriorityClass::Control => {
                self.control.push_back(p);
                assert(self@.control =~= old(self)@.control.push(pv));
            },
            PriorityClass::Haptic => {
                self.haptic.push_back(p);
                assert(self@.haptic =~= old(self)@.haptic.push(pv));
            },
            PriorityClass::Video => {
                self.video.push(p);
                assert(self@.video =~= old(self)@.video.push(pv));
                if self.video.len() > VIDEO_QUEUE_CAP {
                    let ghost pushed = self@.video;
                    let i = next_video_index(&self.video);
                    self.video.remove(i);
                    self.video_dropped = self.video_dropped + 1;
                    assert(self@.video =~= pushed.remove(i as int));
                }
            },
            PriorityClass::Telemetry => {
                self.telemetry.push_back(p);
                assert(self@.telemetry =~= old(self)@.telemetry.push(pv));
            },
        }
    }

    /// Drops queued video datagrams whose deadline is not after `now_ns`; returns how many.
    pub fn purge_expired_video(&mut self, now_ns: u64) -> (r: usize)
        requires
            old(self).wf(),
            old(self)@.video_dropped + old(self)@.video.len() - old(self)@.video.filter(live_at(now_ns)).len() <= u64::MAX,
        ensures
            final(self).wf(),
            final(self)@.video.len() <= VIDEO_QUEUE_CAP,
            final(self)@ == (SchedulerView {
                video: old(self)@.video.filter(live_at(now_ns)),
                video_dropped: (old(self)@.video_dropped + r) as u64,
                ..old(self)@
            }),
            r == old(self)@.video.len() - final(self)@.video.len(),
    {
        let ghost keep = live_at(now_ns);
        let ghost v0 = self@.video;
        let before = self.video.len();
        let mut kept: Vec<ScheduledPacket> = Vec::new();
        let mut drained: Vec<ScheduledPacket> = Vec::new();
        std::mem::swap(&mut drained, &mut self.video);
        assert(packet_views(drained@) == v0);
        let mut i: usize = 0;
        while i < drained.len()
            invariant
                v0 == packet_views(drained@),
                keep == live_at(now_ns),
                i <= drained@.len(),
                packet_views(kept@) == v0.take(i as int).filter(keep),
            decreases drained@.len() - i,
        {
            assert(v0.take(i + 1) =~= v0.take(i as int).push(v0[i as int]));
            proof {
                v0.take(i as int).lemma_filter_push(v0[i as int], keep);
            }
            let ghost prev = packet_views(kept@);
            assert(v0[i as int] == drained@[i as int]@);
            assert(keep(v0[i as int]) == (drained@[i as int].deadline_key > now_ns));
            assert(v0.take(i + 1).filter(keep) == if keep(v0[i as int]) {
                v0.take(i as int).filter(keep).push(v0[i as int])
            } else {
                v0.take(i as int).filter(keep)
            });
            if drained[i].deadline_key > now_ns {
                let q = drained[i].clone_packet();
                kept.push(q);
                assert(packet_views(kept@) =~= prev.push(v0[i as int]));
            }
            assert(packet_views(kept@) =~= v0.take(i + 1).filter(keep));
            i = i + 1;
        }
        assert(v0.take(drained@.len() as int) =~= v0);
        self.video = kept;
        proof {
            v0.lemma_filter_len(keep);
        }
        let dropped = before - self.video.len();
        self.video_dropped = self.video_dropped + dropped as u64;
        assert(self@.video == v0.filter(keep));
        dropped
    }

    /// Pops the next packet: control, then haptic, then the earliest-deadline video,
    /// then telemetry. With a telemetry budget, telemetry popped while under budget is
    /// counted against it.
    pub fn pop_next(&mut self) -> (r: Option<ScheduledPacket>)
        requires
            old(self).wf(),
            old(self)@.telemetry.len() > 0 ==> old(self)@.telemetry_sent_this_tick
                + old(self)@.telemetry[0].datagram.len() <= usize::MAX,
        ensures
            final(self).wf(),
            final(self)@.video.len() <= VIDEO_QUEUE_CAP,
            final(self)@.telemetry_bytes_budget == old(self)@.telemetry_bytes_budget,
            final(self)@.video_dropped == old(self)@.video_dropped,
            ({
                let s = old(self)@;
                let t = final(self)@;
                if s.control.len() > 0 {
                    &&& r matches Some(p) && p@ == s.control[0]
                    &&& t == SchedulerView { control: s.control.drop_first(), ..s }
                } else if s.haptic.len() > 0 {
                    &&& r matches Some(p) && p@ == s.haptic[0]
                    &&& t == SchedulerView { haptic: s.haptic.drop_first(), ..s }
                } else if s.video.len() > 0 {
                    exists|i: int|
                        is_next_video(s.video, i) && t == SchedulerView {
                            video: s.video.remove(i),
                            ..s
                        } && (r matches Some(p) && p@ == s.video[i])
                } else if s.telemetry.len() > 0 {
                    &&& r matches Some(p) && p@ == s.telemetry[0]
                    &&& t == SchedulerView {
                        telemetry: s.telemetry.drop_first(),
                        telemetry_sent_this_tick: if s.telemetry_bytes_budget > 0
                            && s.telemetry_sent_this_tick < s.telemetry_bytes_budget {
                            (s.telemetry_sent_this_tick + s.telemetry[0].datagram.len()) as usize
                        } else {
                            s.telemetry_sent_this_tick
                        },
                        ..s
                    }
                } else {
                    r is None && t == s
                }
            }),
    {
        let ghost s = self@;
        if let Some(p) = self.control.pop_front() {
            assert(self@.control =~= s.control.drop_first());
            return Some(p);
        }
        if let Some(p) = self.haptic.pop_front() {
            assert(self@.haptic =~= s.haptic.drop_first());
            return Some(p);
        }
        if self.video.len() > 0 {
            let i = next_video_index(&self.video);
            let p = self.video.remove(i);
            assert(self@.video =~= s.video.remove(i as int));
            return Some(p);
        }
        if self.telemetry_bytes_budget > 0 && self.telemetry.len() > 0 {
            if self.telemetry_sent_this_tick < self.telemetry_bytes_budget {
                if let Some(p) = self.telemetry.pop_front() {
                    self.telemetry_sent_this_tick = self.telemetry_sent_this_tick
                        + p.datagram.len();
                    assert(self@.telemetry =~= s.telemetry.drop_first());
                    return Some(p);
                }
            }
        }
        let r = self.telemetry.pop_front();
        proof {
            if s.telemetry.len() > 0 {
                assert(self@.telemetry =~= s.telemetry.drop_first());
            } else {
                assert(self@ == s);
            }
        }
        r
    }

    /// Starts a new telemetry budget interval.
    pub fn reset_telemetry_tick(&mut self)
        ensures
            final(self)@ == (SchedulerView { telemetry_sent_this_tick: 0, ..old(self)@ }),
    {
        self.telemetry_sent_this_tick = 0;
    }

    /// Datagrams waiting in the send scheduler (not yet accepted by the kernel).
    pub fn pending_len(&self) -> (r: usize)
        requires
            pending(self@) <= usize::MAX,
        ensures
            r == pending(self@),
    {
        self.control.len() + self.haptic.len() + self.video.len() + self.telemetry.len()
    }

    pub fn video_queue_len(&self) -> (r: usize)
        ensures
            r == self@.video.len(),
    {
        self.video.len()
    }
}

impl ScheduledPacket {
    /// A copy of the packet with the same contents.
    pub fn clone_packet(&self) -> (r: ScheduledPacket)
        ensures
            r@ == self@,
    {
        let mut d: Vec<u8> = Vec::new();
        crate::wire::push_all(&mut d, self.datagram.as_slice());
        ScheduledPacket {
            priority: self.priority,
            payload_type: self.payload_type,
            datagram: d,
            deadline_key: self.deadline_key,
        }
    }
}

/// Among queued video, the packet popped next has the earliest deadline.
pub proof fn lemma_next_video_is_earliest(s: Seq<PacketView>, i: int)
    requires
        is_next_video(s, i),
    ensures
        forall|j: int| 0 <= j < s.len() ==> s[i].deadline_key <= #[trigger] s[j].deadline_key,
{
    assert forall|j: int| 0 <= j < s.len() implies s[i].deadline_key <= #[trigger] s[j].deadline_key by {
        assert(!pops_before(s[j], s[i]));
    }
}

} // verus!
