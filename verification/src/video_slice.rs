//! MTU-aware slicing for video payloads (no IP fragmentation on the hot path).

use vstd::prelude::*;

use crate::wire::{push_all, views};

verus! {

/// `chunks` are `max_chunk`-sized pieces of `payload` in order: every piece is
/// non-empty and at most `max_chunk` long, all but the last exactly `max_chunk`,
/// and together they are the payload.
pub open spec fn is_chunking(chunks: Seq<Seq<u8>>, payload: Seq<u8>, max_chunk: nat) -> bool {
    &&& chunks.flatten() == payload
    &&& forall|i: int| 0 <= i < chunks.len() ==> 0 < #[trigger] chunks[i].len() <= max_chunk
    &&& forall|i: int| 0 <= i < chunks.len() - 1 ==> #[trigger] chunks[i].len() == max_chunk
}

/// `payload` cut into `max_chunk`-sized pieces from the front, the last piece holding
/// what is left; no pieces for an empty payload or a zero size.
pub open spec fn chunks_of(payload: Seq<u8>, max_chunk: nat) -> Seq<Seq<u8>>
    decreases payload.len(),
{
    if max_chunk == 0 || payload.len() == 0 {
        Seq::empty()
    } else if payload.len() <= max_chunk {
        seq![payload]
    } else {
        seq![payload.take(max_chunk as int)] + chunks_of(payload.skip(max_chunk as int), max_chunk)
    }
}

/// A chunking of a payload is the one `chunks_of` describes.
pub proof fn lemma_chunking_unique(chunks: Seq<Seq<u8>>, payload: Seq<u8>, max_chunk: nat)
    requires
        max_chunk > 0,
        is_chunking(chunks, payload, max_chunk),
    ensures
        chunks == chunks_of(payload, max_chunk),
    decreases chunks.len(),
{
    if chunks.len() == 0 {
        assert(payload =~= Seq::<u8>::empty());
    } else {
        let rest = chunks.drop_first();
        let tail = rest.flatten();
        assert(payload == chunks[0] + tail);
        if chunks.len() == 1 {
            assert(rest =~= Seq::<Seq<u8>>::empty());
            assert(payload =~= chunks[0]);
            assert(chunks =~= seq![payload]);
        } else {
            assert(chunks[0].len() == max_chunk);
            assert(0 < rest[0].len());
            assert(rest.flatten() == rest.first() + rest.drop_first().flatten());
            assert(tail.len() > 0);
            assert(payload.take(max_chunk as int) =~= chunks[0]);
            assert(payload.skip(max_chunk as int) =~= tail);
            assert forall|i: int| 0 <= i < rest.len() implies 0 < #[trigger] rest[i].len() <= max_chunk by {
                assert(rest[i] == chunks[i + 1]);
            }
            assert forall|i: int| 0 <= i < rest.len() - 1 implies #[trigger] rest[i].len() == max_chunk by {
                assert(rest[i] == chunks[i + 1]);
            }
            lemma_chunking_unique(rest, tail, max_chunk);
            assert(chunks =~= seq![chunks[0]] + rest);
        }
    }
}

/// Splits `payload` into chunks that fit `mtu` after a `header_len`-byte header;
/// no chunks when no payload byte fits.
pub fn slice_payload(mtu: usize, header_len: usize, payload: &[u8]) -> (r: Vec<Vec<u8>>)
    ensures
        mtu <= header_len ==> r@.len() == 0,
        mtu > header_len ==> is_chunking(views(r@), payload@, (mtu - header_len) as nat),
        mtu > header_len ==> views(r@) == chunks_of(payload@, (mtu - header_len) as nat),
{
    let max_chunk = mtu.saturating_sub(header_len);
    let mut out: Vec<Vec<u8>> = Vec::new();
    if max_chunk == 0 {
        return out;
    }
    let n = payload.len();
    let mut start: usize = 0;
    while start < n
        invariant
            n == payload@.len(),
            start <= n,
            max_chunk > 0,
            views(out@).flatten() == payload@.subrange(0, start as int),
            forall|i: int|
                0 <= i < views(out@).len() ==> 0 < #[trigger] views(out@)[i].len()
                    <= max_chunk,
            forall|i: int|
                0 <= i < views(out@).len() ==> #[trigger] views(out@)[i].len()
                    == max_chunk || (i == views(out@).len() - 1 && start == n),
        decreases n - start,
    {
        let end = if n - start > max_chunk {
            start + max_chunk
        } else {
            n
        };
        let mut chunk: Vec<u8> = Vec::new();
        push_all(&mut chunk, &payload[start..end]);
        let ghost old_dv = views(out@);
        out.push(chunk);
        assert(views(out@) =~= old_dv.push(payload@.subrange(start as int, end as int)));
        proof {
            old_dv.lemma_flatten_push(payload@.subrange(start as int, end as int));
        }
        assert(payload@.subrange(0, start as int) + payload@.subrange(start as int, end as int)
            =~= payload@.subrange(0, end as int));
        start = end;
    }
    assert(payload@.subrange(0, n as int) =~= payload@);
    proof {
        lemma_chunking_unique(views(out@), payload@, max_chunk as nat);
    }
    out
}

/// The chunks of a payload, put back together, are the payload; none is longer than
/// the room the MTU leaves after the header.
pub proof fn lemma_chunks_reassemble(chunks: Seq<Seq<u8>>, payload: Seq<u8>, max_chunk: nat)
    requires
        is_chunking(chunks, payload, max_chunk),
    ensures
        chunks.flatten() == payload,
        forall|i: int| 0 <= i < chunks.len() ==> #[trigger] chunks[i].len() <= max_chunk,
{
}

/// Cutting a payload into pieces and putting them back gives the payload; every piece
/// is non-empty and at most `max_chunk` long, and there are as many as `max_chunk`-sized
/// pieces it takes.
pub proof fn lemma_chunks_of_reassemble(payload: Seq<u8>, max_chunk: nat)
    requires
        max_chunk > 0,
    ensures
        chunks_of(payload, max_chunk).flatten() == payload,
        forall|i: int|
            0 <= i < chunks_of(payload, max_chunk).len() ==> 0 < #[trigger] chunks_of(
                payload,
                max_chunk,
            )[i].len() <= max_chunk,
        chunks_of(payload, max_chunk).len() == (payload.len() + max_chunk - 1) / (max_chunk as int),
    decreases payload.len(),
{
    let c = chunks_of(payload, max_chunk);
    if payload.len() == 0 {
        assert(c.flatten() =~= Seq::<u8>::empty());
        assert((max_chunk - 1) / (max_chunk as int) == 0) by (nonlinear_arith)
            requires
                max_chunk > 0,
        ;
    } else if payload.len() <= max_chunk {
        assert(c.drop_first() =~= Seq::<Seq<u8>>::empty());
        assert(c.flatten() == c.first() + c.drop_first().flatten());
        assert(c.flatten() =~= payload);
        let l = payload.len() as int;
        let m = max_chunk as int;
        assert((l + m - 1) / m == 1) by (nonlinear_arith)
            requires
                0 < l <= m,
        ;
    } else {
        let rest = payload.skip(max_chunk as int);
        lemma_chunks_of_reassemble(rest, max_chunk);
        assert(c.drop_first() =~= chunks_of(rest, max_chunk));
        assert(c.flatten() == c.first() + c.drop_first().flatten());
        assert(payload.take(max_chunk as int) + rest =~= payload);
        assert forall|i: int| 0 <= i < c.len() implies 0 < #[trigger] c[i].len() <= max_chunk by {
            if i > 0 {
                assert(c[i] == chunks_of(rest, max_chunk)[i - 1]);
            }
        }
        let l = payload.len() as int;
        let m = max_chunk as int;
        assert((l + m - 1) / m == 1 + ((l - m) + m - 1) / m) by (nonlinear_arith)
            requires
                m > 0,
                l > m,
        {
            assert(l + m - 1 == m + ((l - m) + m - 1));
        }
    }
}

} // verus!
