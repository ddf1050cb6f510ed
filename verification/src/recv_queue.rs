//! The bounded queue of received payloads behind the C ABI: decoded control
//! envelopes and completed JPEG frames, oldest dropped first when full.

use std::collections::VecDeque;
use vstd::prelude::*;

use crate::control_envelope::{decode_envelope, ControlEnvelope};
use crate::receive::{EventView, ReceivedEvent};
use crate::wire::{push_all, views};

verus! {

/// Version of the C ABI.
pub const LTP_ABI_VERSION: u32 = 2;

/// Most items the receive queue holds; older items are dropped to make room.
pub const RECV_QUEUE_MAX: usize = 64;

/// Error codes of the C ABI.
#[derive(Clone, Copy, Debug, PartialEq, Eq, Structural)]
pub enum LtpErr {
    Success,
    Inval,
    Io,
    Abi,
    Again,
}

/// The numeric code of an error, as the C ABI reports it.
pub open spec fn err_code(e: LtpErr) -> u32 {
    match e {
        LtpErr::Success => 0,
        LtpErr::Inval => 1,
        LtpErr::Io => 2,
        LtpErr::Abi => 3,
        LtpErr::Again => 4,
    }
}

impl LtpErr {
    /// The numeric code of this error.
    pub fn code(&self) -> (r: u32)
        ensures
            r == err_code(*self),
    {
        match self {
            LtpErr::Success => 0,
            LtpErr::Inval => 1,
            LtpErr::Io => 2,
            LtpErr::Abi => 3,
            LtpErr::Again => 4,
        }
    }
}

/// One received payload.
pub enum RecvItem {
    Control { schema_id: u16, payload: Vec<u8> },
    VideoJpeg(Vec<u8>),
}

/// Model of a [`RecvItem`].
pub enum ItemView {
    Control(u16, Seq<u8>),
    VideoJpeg(Seq<u8>),
}

impl View for RecvItem {
    type V = ItemView;

    open spec fn view(&self) -> ItemView {
        match self {
            RecvItem::Control { schema_id, payload } => ItemView::Control(*schema_id, payload@),
            RecvItem::VideoJpeg(p) => ItemView::VideoJpeg(p@),
        }
    }
}

/// The payload bytes of an item.
pub open spec fn item_payload(i: ItemView) -> Seq<u8> {
    match i {
        ItemView::Control(_, p) => p,
        ItemView::VideoJpeg(p) => p,
    }
}

/// The queue after pushing `item`: the oldest items are dropped until there is room.
pub open spec fn push_bounded(q: Seq<ItemView>, item: ItemView) -> Seq<ItemView> {
    if q.len() >= RECV_QUEUE_MAX {
        q.subrange(q.len() - (RECV_QUEUE_MAX - 1), q.len() as int).push(item)
    } else {
        q.push(item)
    }
}

/// The queue after pushing each of `items` in turn.
pub open spec fn push_many(q: Seq<ItemView>, items: Seq<ItemView>) -> Seq<ItemView>
    decreases items.len(),
{
    if items.len() == 0 {
        q
    } else {
        push_bounded(push_many(q, items.drop_last()), items.last())
    }
}

/// The items that a batch of ordered control chunks yields: each chunk that decodes
/// as an envelope, in order; the others are skipped.
pub open spec fn chunk_items(chunks: Seq<Seq<u8>>) -> Seq<ItemView>
    decreases chunks.len(),
{
    if chunks.len() == 0 {
        Seq::empty()
    } else {
        chunk_items(chunks.drop_last()) + match decode_envelope(chunks.last()) {
            Ok((schema_id, payload)) => seq![ItemView::Control(schema_id, payload)],
            Err(_) => Seq::empty(),
        }
    }
}

/// The items one receive event yields.
pub open spec fn event_items(e: EventView) -> Seq<ItemView> {
    match e {
        EventView::ControlOrdered(chunks) => chunk_items(chunks),
        EventView::VideoProgress(Some(jpeg)) => seq![ItemView::VideoJpeg(jpeg)],
        _ => Seq::empty(),
    }
}

/// The items a sequence of receive events yields, in order.
pub open spec fn events_items(evs: Seq<EventView>) -> Seq<ItemView>
    decreases evs.len(),
{
    if evs.len() == 0 {
        Seq::empty()
    } else {
        events_items(evs.drop_last()) + event_items(evs.last())
    }
}

/// What popping from the queue gives.
pub enum RecvPop {
    /// Nothing is queued.
    Empty,
    /// The front item needs this many bytes, more than the caller offered; it stays queued.
    TooSmall(usize),
    /// The front item, removed: kind 0 for control, 1 for video, its schema id
    /// (0 for video) and its payload.
    Item { kind: i32, schema_id: u16, payload: Vec<u8> },
}

/// Received payloads waiting to be popped, at most [`RECV_QUEUE_MAX`].
pub struct RecvQueue {
    items: VecDeque<RecvItem>,
}

impl View for RecvQueue {
    type V = Seq<ItemView>;

    closed spec fn view(&self) -> Seq<ItemView> {
        self.items@.map_values(|i: RecvItem| i@)
    }
}

proof fn lemma_push_many_step(q: Seq<ItemView>, items: Seq<ItemView>, item: ItemView)
    ensures
        push_many(q, items.push(item)) == push_bounded(push_many(q, items), item),
{
    assert(items.push(item).drop_last() =~= items);
}

proof fn lemma_push_many_concat(q: Seq<ItemView>, a: Seq<ItemView>, b: Seq<ItemView>)
    ensures
        push_many(q, a + b) == push_many(push_many(q, a), b),
    decreases b.len(),
{
    if b.len() == 0 {
        assert(a + b =~= a);
    } else {
        assert((a + b).drop_last() =~= a + b.drop_last());
        lemma_push_many_concat(q, a, b.drop_last());
    }
}

impl RecvQueue {
    /// An empty queue.
    pub fn new() -> (r: Self)
        ensures
            r@ == Seq::<ItemView>::empty(),
    {
        let r = RecvQueue { items: VecDeque::new() };
        assert(r@ =~= Seq::<ItemView>::empty());
        r
    }

    /// The number of queued items.
    pub fn len(&self) -> (r: usize)
        ensures
            r == self@.len(),
    {
        self.items.len()
    }

    /// Queues `item`, dropping the oldest items while the queue is full.
    pub fn push(&mut self, item: RecvItem)
        ensures
            final(self)@ == push_bounded(old(self)@, item@),
    {
        let ghost q0 = self@;
        while self.items.len() >= RECV_QUEUE_MAX
            invariant
                self@.len() <= q0.len(),
                q0.len() >= RECV_QUEUE_MAX ==> self@.len() >= RECV_QUEUE_MAX - 1,
                q0.len() < RECV_QUEUE_MAX ==> self@ == q0,
                self@ == q0.subrange(q0.len() - self@.len(), q0.len() as int),
            decreases self.items.len(),
        {
            let ghost before = self@;
            self.items.pop_front();
            assert(self@ =~= before.drop_first());
            assert(self@ =~= q0.subrange(q0.len() - self@.len(), q0.len() as int));
        }
        let ghost mid = self@;
        self.items.push_back(item);
        proof {
            assert(self@ =~= mid.push(item@));
            if q0.len() >= RECV_QUEUE_MAX {
                assert(mid.len() == RECV_QUEUE_MAX - 1);
            }
        }
    }

    /// Queues every control envelope and completed frame that `events` carry, in order:
    /// control chunks that do not decode, duplicates and telemetry add nothing.
    pub fn enqueue_events(&mut self, events: Vec<ReceivedEvent>)
        ensures
            final(self)@ == push_many(old(self)@, events_items(events@.map_values(|e: ReceivedEvent| e@))),
    {
        let ghost evs = events@.map_values(|e: ReceivedEvent| e@);
        let n: usize = events.len();
        let mut i: usize = 0;
        while i < n
            invariant
                n == events.len(),
                evs == events@.map_values(|e: ReceivedEvent| e@),
                0 <= i <= n,
                self@ == push_many(old(self)@, events_items(evs.subrange(0, i as int))),
            decreases n - i,
        {
            let ghost before = self@;
            let ghost pre = evs.subrange(0, i as int);
            match &events[i] {
                ReceivedEvent::ControlOrdered(chunks) => {
                    let m: usize = chunks.len();
                    let mut j: usize = 0;
                    while j < m
                        invariant
                            m == chunks.len(),
                            0 <= j <= m,
                            self@ == push_many(
                                before,
                                chunk_items(views(chunks@).subrange(0, j as int)),
                            ),
                        decreases m - j,
                    {
                        let ghost cs = views(chunks@);
                        assert(cs.subrange(0, j as int + 1).drop_last() =~= cs.subrange(0, j as int));
                        assert(cs.subrange(0, j as int + 1).last() == chunks@[j as int]@);
                        let r = ControlEnvelope::decode(chunks[j].as_slice());
                        match r {
                            Ok(env) => {
                                let ghost it = ItemView::Control(env.schema_id, env.payload@);
                                self.push(RecvItem::Control { schema_id: env.schema_id, payload: env.payload });
                                proof {
                                    lemma_push_many_step(before, chunk_items(cs.subrange(0, j as int)), it);
                                    assert(chunk_items(cs.subrange(0, j as int + 1)) =~= chunk_items(
                                        cs.subrange(0, j as int),
                                    ).push(it));
                                }
                            },
                            Err(_) => {
                                assert(chunk_items(cs.subrange(0, j as int + 1)) =~= chunk_items(
                                    cs.subrange(0, j as int),
                                ));
                            },
                        }
                        j = j + 1;
                    }
                    proof {
                        assert(views(chunks@).subrange(0, m as int) =~= views(chunks@));
                    }
                },
                ReceivedEvent::VideoProgress { frame } => {
                    match frame {
                        Some(jpeg) => {
                            let mut copy: Vec<u8> = Vec::new();
                            push_all(&mut copy, jpeg.as_slice());
                            assert(copy@ =~= jpeg@);
                            self.push(RecvItem::VideoJpeg(copy));
                            proof {
                                lemma_push_many_step(before, Seq::empty(), ItemView::VideoJpeg(jpeg@));
                                assert(seq![ItemView::VideoJpeg(jpeg@)] =~= Seq::<ItemView>::empty().push(
                                    ItemView::VideoJpeg(jpeg@),
                                ));
                            }
                        },
                        None => {},
                    }
                },
                _ => {},
            }
            proof {
                let ev = evs[i as int];
                assert(evs.subrange(0, i as int + 1).drop_last() =~= pre);
                assert(evs.subrange(0, i as int + 1).last() == ev);
                assert(events_items(evs.subrange(0, i as int + 1)) == events_items(pre) + event_items(ev));
                assert(push_many(before, Seq::empty()) == before);
                assert(self@ == push_many(before, event_items(ev)));
                lemma_push_many_concat(old(self)@, events_items(pre), event_items(ev));
            }
            i = i + 1;
        }
        assert(evs.subrange(0, n as int) =~= evs);
    }

    /// Takes the front item if it fits in `cap` bytes.
    pub fn pop(&mut self, cap: usize) -> (r: RecvPop)
        ensures
            old(self)@.len() == 0 ==> r is Empty && final(self)@ == old(self)@,
            old(self)@.len() > 0 && item_payload(old(self)@[0]).len() > cap ==> r == RecvPop::TooSmall(
                item_payload(old(self)@[0]).len() as usize,
            ) && final(self)@ == old(self)@,
            old(self)@.len() > 0 && item_payload(old(self)@[0]).len() <= cap ==> final(self)@
                == old(self)@.drop_first() && match (r, old(self)@[0]) {
                (RecvPop::Item { kind, schema_id, payload }, ItemView::Control(s, p)) => kind == 0
                    && schema_id == s && payload@ == p,
                (RecvPop::Item { kind, schema_id, payload }, ItemView::VideoJpeg(p)) => kind == 1
                    && schema_id == 0 && payload@ == p,
                _ => false,
            },
    {
        if self.items.len() == 0 {
            return RecvPop::Empty;
        }
        let need: usize = match &self.items[0] {
            RecvItem::Control { payload, .. } => payload.len(),
            RecvItem::VideoJpeg(p) => p.len(),
        };
        if need > cap {
            return RecvPop::TooSmall(need);
        }
        let ghost q0 = self@;
        let item = self.items.pop_front();
        assert(self@ =~= q0.drop_first());
        match item {
            Some(RecvItem::Control { schema_id, payload }) => RecvPop::Item { kind: 0, schema_id, payload },
            Some(RecvItem::VideoJpeg(payload)) => RecvPop::Item { kind: 1, schema_id: 0, payload },
            None => RecvPop::Empty,
        }
    }
}

/// The receive queue never holds more than [`RECV_QUEUE_MAX`] items, and the newest
/// item pushed is always kept, last.
pub proof fn lemma_recv_queue_bounded(q: Seq<ItemView>, items: Seq<ItemView>)
    requires
        q.len() <= RECV_QUEUE_MAX,
    ensures
        push_many(q, items).len() <= RECV_QUEUE_MAX,
        items.len() > 0 ==> push_many(q, items).last() == items.last(),
    decreases items.len(),
{
    if items.len() > 0 {
        lemma_recv_queue_bounded(q, items.drop_last());
    }
}

} // verus!
