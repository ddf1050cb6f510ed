//! Single-producer single-consumer ring layout for control and compressed frames.

use vstd::prelude::*;

verus! {

/// A power of two: exactly one bit set.
pub open spec fn is_power_of_two(c: u32) -> bool {
    c != 0 && c & ((c - 1) as u32) == 0
}

proof fn lemma_mask_lt(x: u32, c: u32)
    requires
        is_power_of_two(c),
    ensures
        x & ((c - 1) as u32) < c,
{
    assert(c != 0 && c & ((c - 1) as u32) == 0 ==> x & ((c - 1) as u32) < c) by (bit_vector);
}

proof fn lemma_mask_distinct(t: u32, k1: u32, k2: u32, c: u32)
    requires
        is_power_of_two(c),
        k1 < k2,
        k2 < c,
    ensures
        t.wrapping_add(k1) & ((c - 1) as u32) != t.wrapping_add(k2) & ((c - 1) as u32),
{
    let a = t.wrapping_add(k1);
    let b = t.wrapping_add(k2);
    assert(a == (t + k1) as u32) by (bit_vector)
        requires a == (if t + k1 > u32::MAX { (t + k1 - 0x1_0000_0000) as u32 } else { (t + k1) as u32 });
    assert(b == (t + k2) as u32) by (bit_vector)
        requires b == (if t + k2 > u32::MAX { (t + k2 - 0x1_0000_0000) as u32 } else { (t + k2) as u32 });
    assert(c != 0 && c & ((c - 1) as u32) == 0 && k1 < k2 && k2 < c ==> ((t + k1) as u32) & ((c - 1) as u32) != ((t + k2) as u32) & ((c - 1) as u32)) by (bit_vector);
}


/// Ring magic (`LTPR`).
pub const SHMEM_RING_MAGIC: u32 = 0x4C54_5052;

/// Bytes before the first ring slot in the shared-memory layout.
pub const SHMEM_LAYOUT_PREFIX: usize = 32;

/// Ring header as laid out at the start of the shared segment.
#[derive(Clone, Copy, Debug)]
pub struct ShmemRingHeader {
    pub magic: u32,
    pub version: u32,
    pub capacity: u32,
    pub stride: u32,
    pub head: u32,
    pub tail: u32,
    pub _reserved: u32,
}

/// The header of a new, empty ring.
pub open spec fn initial_header(capacity: u32, stride: u32) -> ShmemRingHeader {
    ShmemRingHeader {
        magic: SHMEM_RING_MAGIC,
        version: 1,
        capacity,
        stride,
        head: 0,
        tail: 0,
        _reserved: 0,
    }
}

impl ShmemRingHeader {
    /// Bytes before the first ring slot in the shared-memory layout.
    pub const LAYOUT_PREFIX: usize = SHMEM_LAYOUT_PREFIX;

    /// The header of an empty ring of `capacity` slots of `stride` bytes.
    pub fn new(capacity: u32, stride: u32) -> (h: Self)
        ensures
            h == initial_header(capacity, stride),
    {
        ShmemRingHeader {
            magic: SHMEM_RING_MAGIC,
            version: 1,
            capacity,
            stride,
            head: 0,
            tail: 0,
            _reserved: 0,
        }
    }
}

/// `s` zero-filled up to `n` bytes.
pub open spec fn padded(s: Seq<u8>, n: nat) -> Seq<u8> {
    s + Seq::new((n - s.len()) as nat, |i: int| 0u8)
}

/// Length of `s` without its trailing zero bytes.
pub open spec fn trimmed_len(s: Seq<u8>) -> nat
    decreases s.len(),
{
    if s.len() == 0 {
        0
    } else if s.last() != 0 {
        s.len()
    } else {
        trimmed_len(s.drop_last())
    }
}

/// In-process ring with the slot semantics of the shared-memory layout: fixed-size
/// zero-padded slots, `head` advanced by the producer and `tail` by the consumer.
pub struct ShmemRing {
    pub hdr: ShmemRingHeader,
    data: Vec<u8>,
}

proof fn lemma_slot_bounds(i: int, c: int, st: int)
    requires
        0 <= i < c,
        st > 0,
    ensures
        0 <= i * st,
        i * st + st <= c * st,
{
    assert(0 <= i * st) by (nonlinear_arith)
        requires
            0 <= i,
            st > 0,
    ;
    assert(i * st + st <= c * st) by (nonlinear_arith)
        requires
            i + 1 <= c,
            st > 0,
    ;
}

proof fn lemma_slots_disjoint(i: int, j: int, st: int)
    requires
        0 <= i,
        0 <= j,
        i != j,
        st > 0,
    ensures
        i * st + st <= j * st || j * st + st <= i * st,
{
    if i < j {
        assert(i * st + st <= j * st) by (nonlinear_arith)
            requires
                i + 1 <= j,
                st > 0,
        ;
    } else {
        assert(j * st + st <= i * st) by (nonlinear_arith)
            requires
                j + 1 <= i,
                st > 0,
        ;
    }
}

impl ShmemRing {
    /// The ring header.
    pub closed spec fn header(&self) -> ShmemRingHeader {
        self.hdr
    }

    /// Number of occupied slots.
    pub closed spec fn occupied(&self) -> nat {
        self.hdr.head.wrapping_sub(self.hdr.tail) as nat
    }

    /// Start offset in the slot storage of the `k`-th occupied slot (0 is the oldest).
    pub closed spec fn slot_start(&self, k: int) -> int {
        (self.hdr.tail.wrapping_add(k as u32) & ((self.hdr.capacity - 1) as u32)) as int
            * self.hdr.stride as int
    }

    /// The occupied slots, oldest first, each `stride` bytes long.
    pub closed spec fn slots(&self) -> Seq<Seq<u8>> {
        Seq::new(
            self.occupied(),
            |k: int| self.data@.subrange(self.slot_start(k), self.slot_start(k) + self.hdr.stride),
        )
    }

    /// Capacity is a power of two, slots are non-empty, the storage holds every slot,
    /// and no more slots are occupied than exist.
    pub closed spec fn wf(&self) -> bool {
        &&& is_power_of_two(self.hdr.capacity)
        &&& self.hdr.stride > 0
        &&& self.data@.len() == self.hdr.capacity as int * self.hdr.stride as int
        &&& self.occupied() <= self.hdr.capacity
    }

    /// A ring of `capacity` slots of `stride` bytes; `None` unless the capacity is a power
    /// of two and the stride non-zero.
    pub fn new(capacity: u32, stride: u32) -> (r: Option<Self>)
        requires
            is_power_of_two(capacity) && stride != 0 ==> capacity as int * stride as int
                <= usize::MAX,
        ensures
            match r {
                Some(ring) => is_power_of_two(capacity) && stride != 0 && ring.wf() && ring.header()
                    == initial_header(capacity, stride) && ring.slots().len() == 0,
                None => !(is_power_of_two(capacity) && stride != 0),
            },
    {
        if !(capacity != 0 && capacity & (capacity - 1) == 0) || stride == 0 {
            return None;
        }
        let cap = capacity as usize;
        let st = stride as usize;
        let data = vec![0u8; cap * st];
        let ring = ShmemRing { hdr: ShmemRingHeader::new(capacity, stride), data };
        assert(ring.slots() =~= Seq::<Seq<u8>>::empty());
        Some(ring)
    }

    fn mask(&self) -> (r: u32)
        requires
            self.wf(),
        ensures
            r == (self.hdr.capacity - 1) as u32,
    {
        self.hdr.capacity - 1
    }

    /// Stores `slot` zero-padded to the stride; `false` (and no change) when it is
    /// longer than the stride or the ring is full.
    pub fn try_push(&mut self, slot: &[u8]) -> (r: bool)
        requires
            old(self).wf(),
        ensures
            final(self).wf(),
            r == (slot@.len() <= old(self).header().stride && old(self).occupied() < old(
                self,
            ).header().capacity),
            r ==> final(self).slots() == old(self).slots().push(
                padded(slot@, old(self).header().stride as nat),
            ) && final(self).header() == (ShmemRingHeader {
                head: old(self).header().head.wrapping_add(1),
                ..old(self).header()
            }),
            !r ==> final(self).slots() == old(self).slots() && final(self).header() == old(self).header(),
    {
        if slot.len() > self.hdr.stride as usize {
            return false;
        }
        let cap = self.hdr.capacity;
        let head = self.hdr.head;
        let tail = self.hdr.tail;
        if head.wrapping_sub(tail) >= cap {
            return false;
        }
        let ghost old_slots = self.slots();
        let ghost n = self.occupied();
        let ghost c = cap as int;
        let ghost st = self.hdr.stride as int;
        let m = self.mask();
        let idx = (head & m) as usize;
        proof {
            lemma_mask_lt(head, cap);
            lemma_slot_bounds(idx as int, c, st);
            assert(tail.wrapping_add(n as u32) == head);
        }
        let stride = self.hdr.stride as usize;
        let dl = self.data.len();
        let off = idx * stride;
        let ghost d0 = self.data@;
        let ghost h0 = self.hdr;
        let mut b: usize = 0;
        while b < stride
            invariant
                self.hdr == h0,
                dl == d0.len(),
                stride == st,
                off == idx as int * st,
                off + st <= d0.len(),
                slot@.len() <= st,
                b <= stride,
                self.data@.len() == d0.len(),
                forall|x: int|
                    0 <= x < d0.len() && !(off <= x < off + b) ==> #[trigger] self.data@[x]
                        == d0[x],
                forall|x: int|
                    0 <= x < b ==> #[trigger] self.data@[off + x] == padded(slot@, st as nat)[x],
            decreases stride - b,
        {
            let v = if b < slot.len() {
                slot[b]
            } else {
                0u8
            };
            self.data.set(off + b, v);
            b = b + 1;
        }
        self.hdr.head = head.wrapping_add(1);
        proof {
            assert(self.occupied() == n + 1);
            assert forall|k: int| 0 <= k < n implies #[trigger] self.slots()[k] == old_slots[k] by {
                lemma_mask_distinct(tail, k as u32, n as u32, cap);
                let j = (tail.wrapping_add(k as u32) & ((cap - 1) as u32)) as int;
                lemma_mask_lt(tail.wrapping_add(k as u32), cap);
                lemma_slot_bounds(j, c, st);
                lemma_slots_disjoint(j, idx as int, st);
                assert(self.slot_start(k) == j * st);
                assert(self.slots()[k] =~= old_slots[k]);
            }
            assert(self.slot_start(n as int) == off);
            assert(self.slots()[n as int] == self.data@.subrange(off as int, off + st));
            assert forall|x: int| 0 <= x < st implies #[trigger] self.data@.subrange(
                off as int,
                off + st,
            )[x] == padded(slot@, st as nat)[x] by {
                assert(self.data@[off + x] == padded(slot@, st as nat)[x]);
            }
            assert(self.slots()[n as int] =~= padded(slot@, st as nat));
            assert(self.slots() =~= old_slots.push(padded(slot@, st as nat)));
        }
        true
    }

    /// Takes the oldest slot, copying its bytes up to the last non-zero one (at most
    /// `out.len()` of them) into `out`; returns how many were copied, or `None` when empty.
    pub fn try_pop(&mut self, out: &mut [u8]) -> (r: Option<usize>)
        requires
            old(self).wf(),
        ensures
            final(self).wf(),
            match r {
                None => old(self).occupied() == 0 && final(self).slots() == old(self).slots()
                    && final(self).header() == old(self).header() && final(out)@ == old(out)@,
                Some(n) => {
                    let s = old(self).slots()[0];
                    &&& old(self).occupied() > 0
                    &&& n == if trimmed_len(s) < old(out)@.len() {
                        trimmed_len(s)
                    } else {
                        old(out)@.len()
                    }
                    &&& final(out)@ == s.subrange(0, n as int) + old(out)@.subrange(
                        n as int,
                        old(out)@.len() as int,
                    )
                    &&& final(self).slots() == old(self).slots().drop_first()
                    &&& final(self).header() == (ShmemRingHeader {
                        tail: old(self).header().tail.wrapping_add(1),
                        ..old(self).header()
                    })
                },
            },
    {
        if self.hdr.head == self.hdr.tail {
            return None;
        }
        let ghost old_slots = self.slots();
        let ghost n = self.occupied();
        let cap = self.hdr.capacity;
        let tail = self.hdr.tail;
        let ghost c = cap as int;
        let ghost st = self.hdr.stride as int;
        let m = self.mask();
        let idx = (tail & m) as usize;
        proof {
            lemma_mask_lt(tail, cap);
            lemma_slot_bounds(idx as int, c, st);
            assert(tail.wrapping_add(0) == tail);
            assert(self.slot_start(0) == idx as int * st);
        }
        let stride = self.hdr.stride as usize;
        let dl = self.data.len();
        let off = idx * stride;
        let ghost s = old_slots[0];
        assert(s =~= self.data@.subrange(off as int, off + st));
        assert(s.subrange(0, stride as int) =~= s);
        // Length up to the last non-zero byte.
        let mut len = stride;
        while len > 0 && self.data[off + len - 1] == 0
            invariant
                len <= stride,
                dl == self.data@.len(),
                stride == st,
                off + st <= self.data@.len(),
                s == self.data@.subrange(off as int, off + st),
                trimmed_len(s) == trimmed_len(s.subrange(0, len as int)),
            decreases len,
        {
            assert(s.subrange(0, len - 1) =~= s.subrange(0, len as int).drop_last());
            len = len - 1;
        }
        proof {
            assert(s.subrange(0, stride as int) =~= s);
            if len > 0 {
                assert(s.subrange(0, len as int).last() != 0);
            }
        }
        let cnt = if len < out.len() {
            len
        } else {
            out.len()
        };
        let mut i: usize = 0;
        while i < cnt
            invariant
                dl == self.data@.len(),
                self.hdr == old(self).hdr,
                cnt <= len <= stride,
                cnt <= out@.len(),
                out@.len() == old(out)@.len(),
                stride == st,
                off + st <= self.data@.len(),
                s == self.data@.subrange(off as int, off + st),
                i <= cnt,
                forall|x: int| 0 <= x < i ==> #[trigger] out@[x] == s[x],
                forall|x: int| i <= x < out@.len() ==> #[trigger] out@[x] == old(out)@[x],
            decreases cnt - i,
        {
            out[i] = self.data[off + i];
            i = i + 1;
        }
        self.hdr.tail = tail.wrapping_add(1);
        proof {
            assert(out@ =~= s.subrange(0, cnt as int) + old(out)@.subrange(
                cnt as int,
                old(out)@.len() as int,
            ));
            assert(self.occupied() == n - 1);
            assert forall|k: int| 0 <= k < n - 1 implies #[trigger] self.slots()[k]
                == old_slots[k + 1] by {
                assert(self.hdr.tail.wrapping_add(k as u32) == tail.wrapping_add((k + 1) as u32));
            }
            assert(self.slots() =~= old_slots.drop_first());
        }
        Some(cnt)
    }
}

/// The ring is first-in first-out, and a slot comes back as written unless it ends in
/// zero bytes: padding a slot to the stride does not change its trimmed length, and a
/// slot that is empty or ends in a non-zero byte is its own trimmed prefix.
pub proof fn lemma_slot_round_trip(s: Seq<u8>, stride: nat)
    requires
        s.len() <= stride,
        s.len() == 0 || s.last() != 0,
    ensures
        trimmed_len(padded(s, stride)) == s.len(),
        padded(s, stride).subrange(0, s.len() as int) == s,
    decreases stride - s.len(),
{
    let p = padded(s, stride);
    assert(p.subrange(0, s.len() as int) =~= s);
    lemma_trimmed_zero_tail(s, (stride - s.len()) as nat);
}

proof fn lemma_trimmed_zero_tail(s: Seq<u8>, z: nat)
    requires
        s.len() == 0 || s.last() != 0,
    ensures
        trimmed_len(s + Seq::new(z, |i: int| 0u8)) == s.len(),
    decreases z,
{
    if z == 0 {
        assert(s + Seq::new(0, |i: int| 0u8) =~= s);
        if s.len() > 0 {
        }
    } else {
        let t = s + Seq::new(z, |i: int| 0u8);
        assert(t.drop_last() =~= s + Seq::new((z - 1) as nat, |i: int| 0u8));
        lemma_trimmed_zero_tail(s, (z - 1) as nat);
    }
}

/// A sequence of ring operations on a ring of `capacity` slots of `stride` bytes holding
/// `slots`: `Some(bytes)` is a push, `None` a pop, each with the effect `try_push` and
/// `try_pop` have on the slots. The slots accepted by pushes, the slots popped, and the
/// slots left, in order.
pub open spec fn ring_run(slots: Seq<Seq<u8>>, capacity: nat, stride: nat, ops: Seq<Option<Seq<u8>>>) -> (
    Seq<Seq<u8>>,
    Seq<Seq<u8>>,
    Seq<Seq<u8>>,
)
    decreases ops.len(),
{
    if ops.len() == 0 {
        (Seq::empty(), Seq::empty(), slots)
    } else {
        let (acc, popped, cur) = ring_run(slots, capacity, stride, ops.drop_last());
        match ops.last() {
            Some(x) => if x.len() <= stride && cur.len() < capacity {
                (acc.push(padded(x, stride)), popped, cur.push(padded(x, stride)))
            } else {
                (acc, popped, cur)
            },
            None => if cur.len() > 0 {
                (acc, popped.push(cur[0]), cur.drop_first())
            } else {
                (acc, popped, cur)
            },
        }
    }
}

/// First in, first out over any sequence of pushes and pops: what was popped, followed by
/// what is still queued, is what was queued at the start followed by every accepted push,
/// in order; and the ring never holds more than its capacity.
pub proof fn lemma_ring_fifo(slots: Seq<Seq<u8>>, capacity: nat, stride: nat, ops: Seq<Option<Seq<u8>>>)
    requires
        slots.len() <= capacity,
    ensures
        ({
            let (acc, popped, cur) = ring_run(slots, capacity, stride, ops);
            &&& popped + cur == slots + acc
            &&& cur.len() <= capacity
        }),
    decreases ops.len(),
{
    if ops.len() > 0 {
        lemma_ring_fifo(slots, capacity, stride, ops.drop_last());
        let (acc, popped, cur) = ring_run(slots, capacity, stride, ops.drop_last());
        match ops.last() {
            Some(x) => {
                if x.len() <= stride && cur.len() < capacity {
                    assert(popped + cur.push(padded(x, stride)) =~= (popped + cur).push(padded(x, stride)));
                    assert(slots + acc.push(padded(x, stride)) =~= (slots + acc).push(padded(x, stride)));
                }
            },
            None => {
                if cur.len() > 0 {
                    assert(popped.push(cur[0]) + cur.drop_first() =~= popped + cur);
                }
            },
        }
    } else {
        assert(Seq::<Seq<u8>>::empty() + slots =~= slots + Seq::<Seq<u8>>::empty());
    }
}

} // verus!
