//! XOR-based FEC micro-batches (no NACK). Video groups keyed by `fec_group_id` / `fec_index`.

use std::collections::HashMap;
use vstd::prelude::*;

use crate::wire::{push_all, views};

verus! {

broadcast use vstd::std_specs::hash::group_hash_axioms;

/// XOR of byte `j` over all blocks.
pub open spec fn xor_fold(blocks: Seq<Seq<u8>>, j: int) -> u8
    decreases blocks.len(),
{
    if blocks.len() == 0 {
        0
    } else {
        xor_fold(blocks.drop_last(), j) ^ blocks.last()[j]
    }
}

/// Byte-wise XOR of all blocks, `len` bytes long.
pub open spec fn xor_all(blocks: Seq<Seq<u8>>, len: nat) -> Seq<u8> {
    Seq::new(len, |j: int| xor_fold(blocks, j))
}

/// Every block is `len` bytes long.
pub open spec fn all_len(blocks: Seq<Seq<u8>>, len: nat) -> bool {
    forall|i: int| 0 <= i < blocks.len() ==> #[trigger] blocks[i].len() == len
}

/// XOR of byte `j` over the blocks that are present; a missing block contributes nothing.
pub open spec fn xor_fold_present(blocks: Seq<Option<Seq<u8>>>, j: int) -> u8
    decreases blocks.len(),
{
    if blocks.len() == 0 {
        0
    } else {
        match blocks.last() {
            Some(v) => xor_fold_present(blocks.drop_last(), j) ^ v[j],
            None => xor_fold_present(blocks.drop_last(), j),
        }
    }
}

/// Number of missing blocks.
pub open spec fn count_missing(blocks: Seq<Option<Seq<u8>>>) -> nat
    decreases blocks.len(),
{
    if blocks.len() == 0 {
        0
    } else {
        count_missing(blocks.drop_last()) + if blocks.last() is None {
            1nat
        } else {
            0nat
        }
    }
}

/// The byte contents of each optional buffer.
pub open spec fn opt_views(s: Seq<Option<Vec<u8>>>) -> Seq<Option<Seq<u8>>> {
    s.map_values(
        |o: Option<Vec<u8>>|
            match o {
                Some(v) => Some(v@),
                None => None,
            },
    )
}

/// The blocks with the missing one rebuilt from the parity.
pub open spec fn recovered_blocks(blocks: Seq<Option<Seq<u8>>>, parity: Seq<u8>) -> Seq<Seq<u8>> {
    blocks.map_values(
        |o: Option<Seq<u8>>|
            match o {
                Some(v) => v,
                None => Seq::new(parity.len(), |j: int| xor_fold_present(blocks, j) ^ parity[j]),
            },
    )
}

/// When `xor_recover_one_missing` can recover: at least one block, exactly one missing,
/// and every present block as long as the parity.
pub open spec fn recoverable(blocks: Seq<Option<Seq<u8>>>, parity_len: nat) -> bool {
    &&& blocks.len() > 0
    &&& count_missing(blocks) == 1
    &&& forall|i: int|
        0 <= i < blocks.len() && #[trigger] blocks[i] is Some ==> blocks[i]->Some_0.len()
            == parity_len
}

/// Byte-wise XOR of two buffers, as long as the shorter one.
fn xor_bytes(a: &[u8], b: &[u8]) -> (r: Vec<u8>)
    ensures
        r@.len() == if a@.len() < b@.len() {
            a@.len()
        } else {
            b@.len()
        },
        forall|i: int| 0 <= i < r@.len() ==> #[trigger] r@[i] == a@[i] ^ b@[i],
{
    let n = if a.len() < b.len() {
        a.len()
    } else {
        b.len()
    };
    let mut r: Vec<u8> = Vec::new();
    let mut i: usize = 0;
    while i < n
        invariant
            n <= a@.len(),
            n <= b@.len(),
            i <= n,
            r@.len() == i,
            forall|k: int| 0 <= k < i ==> #[trigger] r@[k] == a@[k] ^ b@[k],
        decreases n - i,
    {
        r.push(a[i] ^ b[i]);
        i = i + 1;
    }
    r
}

fn xor_many(chunks: &[Vec<u8>]) -> (r: Option<Vec<u8>>)
    ensures
        match r {
            Some(v) => chunks@.len() > 0 && all_len(views(chunks@), chunks@[0]@.len()) && v@
                == xor_all(views(chunks@), chunks@[0]@.len()),
            None => chunks@.len() == 0 || !all_len(views(chunks@), chunks@[0]@.len()),
        },
{
    if chunks.len() == 0 {
        return None;
    }
    let len = chunks[0].len();
    let mut i: usize = 0;
    while i < chunks.len()
        invariant
            i <= chunks@.len(),
            len == chunks@[0]@.len(),
            forall|k: int| 0 <= k < i ==> #[trigger] views(chunks@)[k].len() == len,
        decreases chunks@.len() - i,
    {
        if chunks[i].len() != len {
            assert(views(chunks@)[i as int].len() != len);
            return None;
        }
        i = i + 1;
    }
    let ghost vs = views(chunks@);
    let mut acc: Vec<u8> = Vec::new();
    let mut j: usize = 0;
    while j < len
        invariant
            j <= len,
            acc@ == Seq::new(j as nat, |x: int| 0u8),
        decreases len - j,
    {
        acc.push(0u8);
        j = j + 1;
        assert(acc@ =~= Seq::new(j as nat, |x: int| 0u8));
    }
    assert(acc@ =~= xor_all(vs.take(0), len as nat));
    let mut c: usize = 0;
    while c < chunks.len()
        invariant
            c <= chunks@.len(),
            vs == views(chunks@),
            len == chunks@[0]@.len(),
            all_len(vs, len as nat),
            acc@ == xor_all(vs.take(c as int), len as nat),
        decreases chunks@.len() - c,
    {
        let ghost before = acc@;
        let mut b: usize = 0;
        while b < len
            invariant
                c < chunks@.len(),
                vs == views(chunks@),
                b <= len,
                all_len(vs, len as nat),
                acc@.len() == len,
                forall|x: int|
                    0 <= x < b ==> #[trigger] acc@[x] == xor_fold(vs.take(c + 1), x),
                forall|x: int| b <= x < len ==> #[trigger] acc@[x] == before[x],
                before == xor_all(vs.take(c as int), len as nat),
            decreases len - b,
        {
            assert(vs.take(c + 1).drop_last() =~= vs.take(c as int));
            assert(vs[c as int].len() == len);
            let v = acc[b] ^ chunks[c][b];
            acc.set(b, v);
            b = b + 1;
        }
        c = c + 1;
        assert(acc@ =~= xor_all(vs.take(c as int), len as nat));
    }
    assert(vs.take(chunks@.len() as int) =~= vs);
    Some(acc)
}

/// One parity packet: the byte-wise XOR of all data packets, which must share one length.
pub fn xor_parity(data: &[Vec<u8>]) -> (r: Option<Vec<u8>>)
    ensures
        match r {
            Some(v) => data@.len() > 0 && all_len(views(data@), data@[0]@.len()) && v@ == xor_all(
                views(data@),
                data@[0]@.len(),
            ),
            None => data@.len() == 0 || !all_len(views(data@), data@[0]@.len()),
        },
{
    xor_many(data)
}

/// Recovers the single missing block when `parity` is the XOR of all blocks.
pub fn xor_recover_one_missing(blocks: Vec<Option<Vec<u8>>>, parity: &[u8]) -> (r: Option<
    Vec<Vec<u8>>,
>)
    ensures
        match r {
            Some(out) => recoverable(opt_views(blocks@), parity@.len()) && views(out@)
                == recovered_blocks(opt_views(blocks@), parity@),
            None => !recoverable(opt_views(blocks@), parity@.len()),
        },
{
    let ghost bv = opt_views(blocks@);
    let k = blocks.len();
    if k == 0 {
        return None;
    }
    // Count the missing blocks.

    let mut missing_count: usize = 0;
    let mut missing_at: usize = 0;
    let mut i: usize = 0;
    while i < k
        invariant
            k == blocks@.len(),
            bv == opt_views(blocks@),
            i <= k,
            missing_count == count_missing(bv.take(i as int)),
            missing_count <= i,
            missing_count > 0 ==> missing_at < i && bv[missing_at as int] is None,
            missing_count == 1 ==> forall|x: int|
                0 <= x < i && x != missing_at ==> #[trigger] bv[x] is Some,
            missing_count == 0 ==> forall|x: int| 0 <= x < i ==> #[trigger] bv[x] is Some,
        decreases k - i,
    {
        assert(bv.take(i + 1).drop_last() =~= bv.take(i as int));
        if blocks[i].is_none() {
            if missing_count == 0 {
                missing_at = i;
            }
            missing_count = missing_count + 1;
        }
        i = i + 1;
    }
    assert(bv.take(k as int) =~= bv);
    if missing_count != 1 {
        return None;
    }
    let len = parity.len();
    let mut known_xor: Vec<u8> = Vec::new();
    let mut j: usize = 0;
    while j < len
        invariant
            j <= len,
            known_xor@ == Seq::new(j as nat, |x: int| 0u8),
        decreases len - j,
    {
        known_xor.push(0u8);
        j = j + 1;
        assert(known_xor@ =~= Seq::new(j as nat, |x: int| 0u8));
    }
    let mut c: usize = 0;
    while c < k
        invariant
            k == blocks@.len(),
            bv == opt_views(blocks@),
            c <= k,
            len == parity@.len(),
            known_xor@.len() == len,
            forall|x: int| 0 <= x < len ==> #[trigger] known_xor@[x] == xor_fold_present(
                bv.take(c as int),
                x,
            ),
            forall|x: int|
                0 <= x < c && #[trigger] bv[x] is Some ==> bv[x]->Some_0.len() == len,
        decreases k - c,
    {
        assert(bv.take(c + 1).drop_last() =~= bv.take(c as int));
        match &blocks[c] {
            Some(v) => {
                if v.len() != len {
                    assert(bv[c as int] is Some);
                    return None;
                }
                let ghost before = known_xor@;
                let mut b: usize = 0;
                while b < len
                    invariant
                        b <= len,
                        len == v@.len(),
                        known_xor@.len() == len,
                        bv[c as int] == Some(v@),
                        c < k,
                        k == bv.len(),
                        forall|x: int|
                            0 <= x < b ==> #[trigger] known_xor@[x] == xor_fold_present(
                                bv.take(c + 1),
                                x,
                            ),
                        forall|x: int| b <= x < len ==> #[trigger] known_xor@[x] == before[x],
                        forall|x: int|
                            0 <= x < len ==> #[trigger] before[x] == xor_fold_present(
                                bv.take(c as int),
                                x,
                            ),
                    decreases len - b,
                {
                    assert(bv.take(c + 1).drop_last() =~= bv.take(c as int));
                    assert(bv.take(c + 1).last() == Some(v@));
                    let nv = known_xor[b] ^ v[b];
                    known_xor.set(b, nv);
                    b = b + 1;
                }
            },
            None => {
                assert(bv.take(c + 1).last() is None);
            },
        }
        c = c + 1;
    }
    assert(bv.take(k as int) =~= bv);
    let recovered = xor_bytes(known_xor.as_slice(), parity);
    assert(recovered@ =~= Seq::new(parity@.len(), |x: int| xor_fold_present(bv, x) ^ parity@[x]));
    let mut out: Vec<Vec<u8>> = Vec::new();
    let mut x: usize = 0;
    while x < k
        invariant
            k == blocks@.len(),
            bv == opt_views(blocks@),
            x <= k,
            recovered@ == Seq::new(parity@.len(), |y: int| xor_fold_present(bv, y) ^ parity@[y]),
            views(out@) =~= recovered_blocks(bv, parity@).take(x as int),
        decreases k - x,
    {
        let mut copy: Vec<u8> = Vec::new();
        match &blocks[x] {
            Some(v) => {
                push_all(&mut copy, v.as_slice());
                assert(bv[x as int] == Some(v@));
                assert(copy@ =~= v@);
            },
            None => {
                push_all(&mut copy, recovered.as_slice());
                assert(bv[x as int] is None);
                assert(copy@ =~= recovered@);
            },
        }
        assert(copy@ == recovered_blocks(bv, parity@)[x as int]);
        let ghost old_out = views(out@);
        out.push(copy);
        assert(views(out@) =~= old_out.push(recovered_blocks(bv, parity@)[x as int]));
        assert(recovered_blocks(bv, parity@).take(x as int).push(
            recovered_blocks(bv, parity@)[x as int],
        ) =~= recovered_blocks(bv, parity@).take(x + 1));
        x = x + 1;
        assert(views(out@) =~= recovered_blocks(bv, parity@).take(x as int));
    }
    assert(recovered_blocks(bv, parity@).take(k as int) =~= recovered_blocks(bv, parity@));
    Some(out)
}

} // verus!

verus! {

/// `data` with block `m` missing.
pub open spec fn with_missing(data: Seq<Seq<u8>>, m: int) -> Seq<Option<Seq<u8>>> {
    Seq::new(data.len(), |i: int| if i == m { None } else { Some(data[i]) })
}

proof fn lemma_xor_swap(a: u8, b: u8, c: u8)
    ensures
        (a ^ b) ^ c == (a ^ c) ^ b,
{
    assert((a ^ b) ^ c == (a ^ c) ^ b) by (bit_vector);
}

proof fn lemma_xor_cancel(a: u8, b: u8)
    ensures
        a ^ (a ^ b) == b,
{
    assert(a ^ (a ^ b) == b) by (bit_vector);
}

proof fn lemma_fold_all_present(data: Seq<Seq<u8>>, j: int)
    ensures
        xor_fold_present(Seq::new(data.len(), |i: int| Some(data[i])), j) == xor_fold(data, j),
        count_missing(Seq::new(data.len(), |i: int| Some(data[i]))) == 0,
    decreases data.len(),
{
    let s = Seq::new(data.len(), |i: int| Some(data[i]));
    if data.len() > 0 {
        let d = data.drop_last();
        assert(s.drop_last() =~= Seq::new(d.len(), |i: int| Some(d[i])));
        lemma_fold_all_present(d, j);
    }
}

proof fn lemma_fold_with_missing(data: Seq<Seq<u8>>, m: int, j: int)
    requires
        0 <= m < data.len(),
    ensures
        xor_fold(data, j) == xor_fold_present(with_missing(data, m), j) ^ data[m][j],
        count_missing(with_missing(data, m)) == 1,
    decreases data.len(),
{
    let s = with_missing(data, m);
    let d = data.drop_last();
    if m == data.len() - 1 {
        assert(s.drop_last() =~= Seq::new(d.len(), |i: int| Some(d[i])));
        lemma_fold_all_present(d, j);
    } else {
        assert(s.drop_last() =~= with_missing(d, m));
        lemma_fold_with_missing(d, m, j);
        lemma_xor_swap(xor_fold_present(with_missing(d, m), j), data[m][j], data.last()[j]);
    }
}

/// XOR parity repairs any single lost block: with the parity of equal-length data
/// blocks, the block left out of `with_missing(data, m)` is rebuilt exactly, and the
/// others are passed through.
pub proof fn lemma_recover_one_missing(data: Seq<Seq<u8>>, m: int)
    requires
        data.len() > 0,
        all_len(data, data[0].len()),
        0 <= m < data.len(),
    ensures
        recoverable(with_missing(data, m), data[0].len()),
        recovered_blocks(with_missing(data, m), xor_all(data, data[0].len())) == data,
{
    let len = data[0].len();
    let blocks = with_missing(data, m);
    let parity = xor_all(data, len);
    lemma_fold_with_missing(data, m, 0);
    let rb = recovered_blocks(blocks, parity);
    assert forall|i: int| 0 <= i < data.len() implies #[trigger] rb[i] == data[i] by {
        if i == m {
            assert forall|j: int| 0 <= j < len implies #[trigger] rb[i][j] == data[i][j] by {
                lemma_fold_with_missing(data, m, j);
                lemma_xor_cancel(xor_fold_present(blocks, j), data[m][j]);
            }
            assert(rb[i] =~= data[i]);
        }
    }
    assert(rb =~= data);
}

} // verus!

verus! {

/// Shard contents by index.
pub open spec fn shard_map(m: Map<u8, Vec<u8>>) -> Map<u8, Seq<u8>> {
    m.map_values(|v: Vec<u8>| v@)
}

/// All shard indices below `k` are present.
pub open spec fn has_all_shards(m: Map<u8, Seq<u8>>, k: u8) -> bool {
    forall|i: u8| i < k ==> #[trigger] m.contains_key(i)
}

/// Shards `0..n` concatenated in index order.
pub open spec fn concat_shards(m: Map<u8, Seq<u8>>, n: nat) -> Seq<u8>
    decreases n,
{
    if n == 0 {
        Seq::empty()
    } else {
        concat_shards(m, (n - 1) as nat) + m[(n - 1) as u8]
    }
}

/// Collects video FEC shards for one `fec_group_id`; once shards `0..k` are all present
/// their concatenation in index order is the frame.
pub struct VideoFecGroup {
    pub k: u8,
    pub shards: HashMap<u8, Vec<u8>>,
}

impl Default for VideoFecGroup {
    fn default() -> (g: Self)
        ensures
            g.k == 0,
            g.shards@ == Map::<u8, Vec<u8>>::empty(),
    {
        VideoFecGroup { k: 0, shards: HashMap::new() }
    }
}

impl VideoFecGroup {
    /// Stores a shard; the group size is fixed by the first call with a group size still
    /// unset. Returns the frame when shards `0..k` are all present.
    pub fn ingest(&mut self, fec_index: u8, payload: Vec<u8>, k: u8) -> (r: Option<Vec<u8>>)
        ensures
            final(self).k == (if old(self).k == 0 {
                k
            } else {
                old(self).k
            }),
            shard_map(final(self).shards@) == shard_map(old(self).shards@).insert(
                fec_index,
                payload@,
            ),
            match r {
                Some(v) => has_all_shards(shard_map(final(self).shards@), final(self).k) && v@
                    == concat_shards(shard_map(final(self).shards@), final(self).k as nat),
                None => !has_all_shards(shard_map(final(self).shards@), final(self).k),
            },
    {
        if self.k == 0 {
            self.k = k;
        }
        let ghost pv = payload@;
        self.shards.insert(fec_index, payload);
        assert(shard_map(self.shards@) =~= shard_map(old(self).shards@).insert(fec_index, pv));
        let ghost m = shard_map(self.shards@);
        let mut i: u8 = 0;
        while i < self.k
            invariant
                i <= self.k,
                m == shard_map(self.shards@),
                m == shard_map(old(self).shards@).insert(fec_index, pv),
                pv == payload@,
                self.k == (if old(self).k == 0 {
                    k
                } else {
                    old(self).k
                }),
                forall|x: u8| x < i ==> #[trigger] m.contains_key(x),
            decreases self.k - i,
        {
            if !self.shards.contains_key(&i) {
                assert(!m.contains_key(i));
                return None;
            }
            i = i + 1;
        }
        let mut out: Vec<u8> = Vec::new();
        let mut j: u8 = 0;
        while j < self.k
            invariant
                j <= self.k,
                m == shard_map(self.shards@),
                m == shard_map(old(self).shards@).insert(fec_index, pv),
                pv == payload@,
                self.k == (if old(self).k == 0 {
                    k
                } else {
                    old(self).k
                }),
                has_all_shards(m, self.k),
                out@ == concat_shards(m, j as nat),
            decreases self.k - j,
        {
            assert(m.contains_key(j));
            assert(self.shards@.contains_key(j));
            match self.shards.get(&j) {
                Some(s) => {
                    push_all(&mut out, s.as_slice());
                },
                None => {
                    return None;
                },
            }
            j = j + 1;
        }
        Some(out)
    }
}

} // verus!
