//! Reassembly of JPEG images from the binary chunks of a camera WebSocket.
//!
//! [`JpegAssembler`] follows chunk boundaries: a chunk that starts with SOI opens a
//! frame, a chunk that ends with EOI closes it. [`JpegScanner`] ignores chunk
//! boundaries and scans the accumulated bytes for SOI .. EOI.

use vstd::prelude::*;

use crate::wire::{push_all, views};

verus! {

/// Assembly limit of the robot gateway's camera threads.
pub const GATEWAY_JPEG_MAX: usize = 33554432;

/// Assembly limit of the QUIC robot relay's camera tasks.
pub const RELAY_JPEG_MAX: usize = 8388608;

/// `c` begins with the JPEG start-of-image marker `FF D8`.
pub open spec fn starts_soi(c: Seq<u8>) -> bool {
    c.len() >= 2 && c[0] == 0xffu8 && c[1] == 0xd8u8
}

/// `c` ends with the JPEG end-of-image marker `FF D9`.
pub open spec fn ends_eoi(c: Seq<u8>) -> bool {
    c.len() >= 2 && c[c.len() - 2] == 0xffu8 && c[c.len() - 1] == 0xd9u8
}

/// One chunk fed to an assembler holding `buf` with limit `max`: the new buffer and the
/// image completed by this chunk, if any.
/// - A chunk starting with SOI discards whatever was buffered and opens a new image.
/// - With nothing buffered, a chunk without SOI is dropped.
/// - An image that would grow past `max` is discarded.
/// - A chunk ending with EOI completes the image.
pub open spec fn assemble_step(buf: Seq<u8>, chunk: Seq<u8>, max: nat) -> (Seq<u8>, Option<Seq<u8>>) {
    let b = if starts_soi(chunk) {
        Seq::<u8>::empty()
    } else {
        buf
    };
    if b.len() == 0 && !starts_soi(chunk) {
        (b, None)
    } else if b.len() + chunk.len() > max {
        (Seq::<u8>::empty(), None)
    } else if ends_eoi(chunk) {
        (Seq::<u8>::empty(), Some(b + chunk))
    } else {
        (b + chunk, None)
    }
}

/// The sequence holding the image, if any.
pub open spec fn opt_frames(e: Option<Seq<u8>>) -> Seq<Seq<u8>> {
    match e {
        Some(f) => seq![f],
        None => Seq::empty(),
    }
}

/// Chunks fed in order to an assembler holding `buf`: the final buffer and every image
/// completed on the way.
pub open spec fn assemble_all(buf: Seq<u8>, chunks: Seq<Seq<u8>>, max: nat) -> (Seq<u8>, Seq<Seq<u8>>)
    decreases chunks.len(),
{
    if chunks.len() == 0 {
        (buf, Seq::empty())
    } else {
        let (b, fs) = assemble_all(buf, chunks.drop_last(), max);
        let (b2, e) = assemble_step(b, chunks.last(), max);
        (b2, fs + opt_frames(e))
    }
}

/// Accumulates WebSocket chunks until a whole image (`FF D8` .. `FF D9`) is there.
pub struct JpegAssembler {
    buf: Vec<u8>,
    max: usize,
}

impl JpegAssembler {
    /// The bytes buffered towards the next image.
    pub closed spec fn buffered(&self) -> Seq<u8> {
        self.buf@
    }

    /// The largest image this assembler keeps.
    pub closed spec fn limit(&self) -> nat {
        self.max as nat
    }

    /// An empty assembler that discards images above `max_bytes`.
    pub fn new(max_bytes: usize) -> (r: Self)
        ensures
            r.buffered() == Seq::<u8>::empty(),
            r.limit() == max_bytes,
    {
        JpegAssembler { buf: Vec::new(), max: max_bytes }
    }

    /// Feeds one chunk; an image it completes is appended to `out`.
    pub fn push_chunk(&mut self, chunk: &[u8], out: &mut Vec<Vec<u8>>)
        ensures
            final(self).limit() == old(self).limit(),
            final(self).buffered() == assemble_step(old(self).buffered(), chunk@, old(self).limit()).0,
            views(final(out)@) == views(old(out)@) + opt_frames(
                assemble_step(old(self).buffered(), chunk@, old(self).limit()).1,
            ),
    {
        let n: usize = chunk.len();
        let soi: bool = n >= 2 && chunk[0] == 0xffu8 && chunk[1] == 0xd8u8;
        let eoi: bool = n >= 2 && chunk[n - 2] == 0xffu8 && chunk[n - 1] == 0xd9u8;
        if soi && self.buf.len() > 0 {
            self.buf.clear();
        }
        if self.buf.len() == 0 && !soi {
            assert(views(out@) =~= views(old(out)@) + Seq::<Seq<u8>>::empty());
            return;
        }
        let over: bool = match self.buf.len().checked_add(n) {
            Some(total) => total > self.max,
            None => true,
        };
        if over {
            self.buf.clear();
            assert(views(out@) =~= views(old(out)@) + Seq::<Seq<u8>>::empty());
            return;
        }
        push_all(&mut self.buf, chunk);
        if eoi {
            let mut frame: Vec<u8> = Vec::new();
            std::mem::swap(&mut frame, &mut self.buf);
            let ghost f = frame@;
            out.push(frame);
            assert(views(out@) =~= views(old(out)@) + seq![f]);
        } else {
            assert(views(out@) =~= views(old(out)@) + Seq::<Seq<u8>>::empty());
        }
    }

    /// Feeds one chunk and returns the image it completes, if any, as a list.
    pub fn push_chunk_frames(&mut self, chunk: &[u8]) -> (r: Vec<Vec<u8>>)
        ensures
            final(self).limit() == old(self).limit(),
            final(self).buffered() == assemble_step(old(self).buffered(), chunk@, old(self).limit()).0,
            views(r@) == opt_frames(assemble_step(old(self).buffered(), chunk@, old(self).limit()).1),
    {
        let mut out: Vec<Vec<u8>> = Vec::new();
        self.push_chunk(chunk, &mut out);
        assert(views(out@) =~= Seq::<Seq<u8>>::empty() + views(out@));
        out
    }
}

/// An assembler's buffer is empty or holds the start of an image within the limit.
pub open spec fn assembly_buffer_ok(buf: Seq<u8>, max: nat) -> bool {
    buf.len() == 0 || (starts_soi(buf) && buf.len() <= max)
}

/// Every image an assembler hands out starts with SOI, ends with EOI and is within the
/// limit; and the buffer stays empty or the start of an image within the limit.
pub proof fn lemma_assembled_frame_is_whole(buf: Seq<u8>, chunk: Seq<u8>, max: nat)
    requires
        assembly_buffer_ok(buf, max),
    ensures
        assembly_buffer_ok(assemble_step(buf, chunk, max).0, max),
        assemble_step(buf, chunk, max).1 matches Some(f) ==> starts_soi(f) && ends_eoi(f)
            && f.len() <= max,
{
    let b = if starts_soi(chunk) {
        Seq::<u8>::empty()
    } else {
        buf
    };
    if b.len() == 0 && !starts_soi(chunk) {
    } else if b.len() + chunk.len() > max {
    } else {
        let f = b + chunk;
        if b.len() == 0 {
            assert(f =~= chunk);
        } else {
            assert(f[0] == b[0] && f[1] == b[1]);
        }
        if ends_eoi(chunk) {
            assert(f[f.len() - 2] == chunk[chunk.len() - 2]);
            assert(f[f.len() - 1] == chunk[chunk.len() - 1]);
        }
    }
}

/// The chunks of one image: the first starts with SOI, no later one does, none but the
/// last ends with EOI, the last does, and the image fits the limit.
pub open spec fn image_chunks(chunks: Seq<Seq<u8>>, max: nat) -> bool {
    &&& chunks.len() > 0
    &&& starts_soi(chunks[0])
    &&& forall|i: int| 0 < i < chunks.len() ==> !starts_soi(#[trigger] chunks[i])
    &&& forall|i: int| 0 <= i < chunks.len() - 1 ==> !ends_eoi(#[trigger] chunks[i])
    &&& ends_eoi(chunks.last())
    &&& chunks.flatten().len() <= max
}

proof fn lemma_flatten_take_len(chunks: Seq<Seq<u8>>, k: int)
    requires
        0 <= k <= chunks.len(),
    ensures
        chunks.take(k).flatten().len() <= chunks.flatten().len(),
    decreases chunks.len() - k,
{
    if k < chunks.len() {
        lemma_flatten_take_len(chunks, k + 1);
        assert(chunks.take(k + 1).drop_last() =~= chunks.take(k));
        chunks.take(k).lemma_flatten_push(chunks[k]);
        assert(chunks.take(k).push(chunks[k]) =~= chunks.take(k + 1));
    } else {
        assert(chunks.take(k) =~= chunks);
    }
}

proof fn lemma_image_prefix(buf: Seq<u8>, chunks: Seq<Seq<u8>>, max: nat, k: int)
    requires
        image_chunks(chunks, max),
        1 <= k < chunks.len(),
    ensures
        assemble_all(buf, chunks.take(k), max) == (chunks.take(k).flatten(), Seq::<Seq<u8>>::empty()),
    decreases k,
{
    let pre = chunks.take(k);
    assert(pre.drop_last() =~= chunks.take(k - 1));
    assert(pre.last() == chunks[k - 1]);
    lemma_flatten_take_len(chunks, k);
    chunks.take(k - 1).lemma_flatten_push(chunks[k - 1]);
    assert(chunks.take(k - 1).push(chunks[k - 1]) =~= pre);
    if k == 1 {
        assert(chunks.take(0) =~= Seq::<Seq<u8>>::empty());
        assert(chunks.take(0).flatten() =~= Seq::<u8>::empty());
        assert(Seq::<u8>::empty() + chunks[0] =~= chunks[0]);
    } else {
        lemma_image_prefix(buf, chunks, max, k - 1);
        let b = chunks.take(k - 1).flatten();
        assert(chunks.take(1) =~= seq![chunks[0]]);
        lemma_flatten_take_len(chunks.take(k - 1), 1);
        assert(chunks.take(k - 1).take(1) =~= seq![chunks[0]]);
        assert(seq![chunks[0]].flatten() =~= chunks[0]) by {
            Seq::<Seq<u8>>::empty().lemma_flatten_push(chunks[0]);
            assert(Seq::<Seq<u8>>::empty().push(chunks[0]) =~= seq![chunks[0]]);
            assert(Seq::<Seq<u8>>::empty().flatten() =~= Seq::<u8>::empty());
            assert(Seq::<u8>::empty() + chunks[0] =~= chunks[0]);
        }
        assert(b.len() >= 2);
        assert(!starts_soi(chunks[k - 1]));
        assert(!ends_eoi(chunks[k - 1]));
    }
    let st = assemble_step(assemble_all(buf, pre.drop_last(), max).0, pre.last(), max);
    assert(st.1 is None);
    assert(opt_frames(st.1) =~= Seq::<Seq<u8>>::empty());
    assert(Seq::<Seq<u8>>::empty() + Seq::<Seq<u8>>::empty() =~= Seq::<Seq<u8>>::empty());
}

/// The chunks of one image, fed in order to any assembler whose limit it fits, come out
/// as exactly that image, and leave the assembler empty.
pub proof fn lemma_image_reassembles(buf: Seq<u8>, chunks: Seq<Seq<u8>>, max: nat)
    requires
        image_chunks(chunks, max),
    ensures
        assemble_all(buf, chunks, max) == (Seq::<u8>::empty(), seq![chunks.flatten()]),
{
    let n = chunks.len() as int;
    assert(chunks.drop_last() =~= chunks.take(n - 1));
    chunks.drop_last().lemma_flatten_push(chunks.last());
    assert(chunks.drop_last().push(chunks.last()) =~= chunks);
    if n == 1 {
        assert(chunks.drop_last() =~= Seq::<Seq<u8>>::empty());
        assert(Seq::<Seq<u8>>::empty().flatten() =~= Seq::<u8>::empty());
        assert(Seq::<u8>::empty() + chunks[0] =~= chunks[0]);
    } else {
        lemma_image_prefix(buf, chunks, max, n - 1);
        let b = chunks.take(n - 1).flatten();
        lemma_flatten_take_len(chunks.take(n - 1), 1);
        assert(chunks.take(n - 1).take(1) =~= seq![chunks[0]]);
        assert(seq![chunks[0]].flatten() =~= chunks[0]) by {
            Seq::<Seq<u8>>::empty().lemma_flatten_push(chunks[0]);
            assert(Seq::<Seq<u8>>::empty().push(chunks[0]) =~= seq![chunks[0]]);
            assert(Seq::<Seq<u8>>::empty().flatten() =~= Seq::<u8>::empty());
            assert(Seq::<u8>::empty() + chunks[0] =~= chunks[0]);
        }
        assert(b.len() >= 2);
        assert(!starts_soi(chunks[n - 1]));
    }
    let st = assemble_step(assemble_all(buf, chunks.drop_last(), max).0, chunks.last(), max);
    assert(st.1 == Some(chunks.flatten()));
    assert(opt_frames(st.1) =~= seq![chunks.flatten()]);
    assert(Seq::<Seq<u8>>::empty() + seq![chunks.flatten()] =~= seq![chunks.flatten()]);
}

/// The first index `i >= from` where `s[i] == m1` and `s[i + 1] == m2`.
pub open spec fn find_marker(s: Seq<u8>, m1: u8, m2: u8, from: int) -> Option<int>
    decreases s.len() - from,
{
    if from < 0 || from + 1 >= s.len() {
        None
    } else if s[from] == m1 && s[from + 1] == m2 {
        Some(from)
    } else {
        find_marker(s, m1, m2, from + 1)
    }
}

/// `s` holds the marker `m1 m2` at `i`.
pub open spec fn marker_at(s: Seq<u8>, m1: u8, m2: u8, i: int) -> bool {
    0 <= i && i + 1 < s.len() && s[i] == m1 && s[i + 1] == m2
}

/// What `find_marker` finds is the first marker at or after `from`.
pub proof fn lemma_find_marker(s: Seq<u8>, m1: u8, m2: u8, from: int)
    requires
        from >= 0,
    ensures
        match find_marker(s, m1, m2, from) {
            Some(i) => from <= i && marker_at(s, m1, m2, i) && forall|j: int|
                from <= j < i ==> !#[trigger] marker_at(s, m1, m2, j),
            None => forall|j: int| from <= j ==> !#[trigger] marker_at(s, m1, m2, j),
        },
    decreases s.len() - from,
{
    if from + 1 >= s.len() {
    } else if s[from] == m1 && s[from + 1] == m2 {
    } else {
        lemma_find_marker(s, m1, m2, from + 1);
    }
}

proof fn lemma_find_marker_shift(s: Seq<u8>, m1: u8, m2: u8, from: int, k: int)
    requires
        from >= 0,
        0 <= k <= s.len(),
    ensures
        find_marker(s.skip(k), m1, m2, from) == match find_marker(s, m1, m2, from + k) {
            Some(i) => Some(i - k),
            None => None::<int>,
        },
    decreases s.len() - from - k,
{
    let t = s.skip(k);
    if from + 1 >= t.len() {
    } else {
        assert(t[from] == s[from + k] && t[from + 1] == s[from + 1 + k]);
        if !(t[from] == m1 && t[from + 1] == m2) {
            lemma_find_marker_shift(s, m1, m2, from + 1, k);
        }
    }
}

proof fn lemma_find_marker_extend(s: Seq<u8>, t: Seq<u8>, m1: u8, m2: u8, from: int)
    requires
        from >= 0,
        find_marker(s, m1, m2, from) is Some,
    ensures
        find_marker(s + t, m1, m2, from) == find_marker(s, m1, m2, from),
    decreases s.len() - from,
{
    let u = s + t;
    assert(u[from] == s[from] && u[from + 1] == s[from + 1]);
    if !(s[from] == m1 && s[from + 1] == m2) {
        lemma_find_marker_extend(s, t, m1, m2, from + 1);
    }
}

/// The images found in `buf` and the bytes kept for later: from the first SOI, up to and
/// including the first EOI at least two bytes after it, again and again. Bytes before an
/// SOI are discarded; with no SOI left nothing is kept; an image without its EOI yet is
/// kept from its SOI on.
pub open spec fn scan_jpegs(buf: Seq<u8>) -> (Seq<Seq<u8>>, Seq<u8>)
    decreases buf.len(),
{
    match find_marker(buf, 0xffu8, 0xd8u8, 0) {
        None => (Seq::empty(), Seq::empty()),
        Some(p) => {
            let b = buf.skip(p);
            match find_marker(b, 0xffu8, 0xd9u8, 2) {
                None => (Seq::empty(), b),
                Some(q) => {
                    proof {
                        lemma_find_marker(buf, 0xffu8, 0xd8u8, 0);
                        lemma_find_marker(b, 0xffu8, 0xd9u8, 2);
                    }
                    let rest = scan_jpegs(b.skip(q + 2));
                    (seq![b.take(q + 2)] + rest.0, rest.1)
                },
            }
        },
    }
}

/// The first marker `m1 m2` in `s` at or after `from`.
fn find_marker_exec(s: &Vec<u8>, m1: u8, m2: u8, from: usize) -> (r: Option<usize>)
    ensures
        match r {
            Some(i) => find_marker(s@, m1, m2, from as int) == Some(i as int),
            None => find_marker(s@, m1, m2, from as int) is None,
        },
{
    let n: usize = s.len();
    let mut i: usize = from;
    while i < n && i + 1 < n
        invariant
            n == s@.len(),
            from <= i,
            find_marker(s@, m1, m2, from as int) == find_marker(s@, m1, m2, i as int),
        decreases n - i,
    {
        if s[i] == m1 && s[i + 1] == m2 {
            return Some(i);
        }
        i = i + 1;
    }
    None
}

/// Scans the accumulated WebSocket bytes for whole images, whatever the chunk boundaries.
pub struct JpegScanner {
    buf: Vec<u8>,
}

impl JpegScanner {
    /// The bytes kept towards the next image.
    pub closed spec fn buffered(&self) -> Seq<u8> {
        self.buf@
    }

    /// A scanner with nothing buffered.
    pub fn new() -> (r: Self)
        ensures
            r.buffered() == Seq::<u8>::empty(),
    {
        JpegScanner { buf: Vec::new() }
    }

    /// Appends `chunk` and returns every image now complete, in order.
    pub fn push_chunk(&mut self, chunk: &[u8]) -> (r: Vec<Vec<u8>>)
        ensures
            views(r@) == scan_jpegs(old(self).buffered() + chunk@).0,
            final(self).buffered() == scan_jpegs(old(self).buffered() + chunk@).1,
    {
        push_all(&mut self.buf, chunk);
        let ghost all = self.buf@;
        let n: usize = self.buf.len();
        let mut frames: Vec<Vec<u8>> = Vec::new();
        let mut pos: usize = 0;
        let mut rest_from: usize = n;
        let mut done: bool = false;
        assert(all.skip(0) =~= all);
        assert(views(frames@) + scan_jpegs(all).0 =~= scan_jpegs(all).0);
        while !done
            invariant
                n == self.buf@.len(),
                self.buf@ == all,
                pos <= n,
                rest_from <= n,
                !done ==> scan_jpegs(all) == (views(frames@) + scan_jpegs(all.skip(pos as int)).0,
                    scan_jpegs(all.skip(pos as int)).1),
                done ==> scan_jpegs(all) == (views(frames@), all.skip(rest_from as int)),
            decreases (if done { 0int } else { 1int }), n - pos,
        {
            let ghost s = all.skip(pos as int);
            proof {
                lemma_find_marker_shift(all, 0xffu8, 0xd8u8, 0, pos as int);
            }
            match find_marker_exec(&self.buf, 0xffu8, 0xd8u8, pos) {
                None => {
                    assert(all.skip(n as int) =~= Seq::<u8>::empty());
                    assert(views(frames@) + Seq::<Seq<u8>>::empty() =~= views(frames@));
                    rest_from = n;
                    done = true;
                },
                Some(p) => {
                    proof {
                        lemma_find_marker(all, 0xffu8, 0xd8u8, pos as int);
                    }
                    let ghost b = s.skip(p - pos);
                    assert(b =~= all.skip(p as int));
                    proof {
                        lemma_find_marker_shift(all, 0xffu8, 0xd9u8, 2, p as int);
                    }
                    match find_marker_exec(&self.buf, 0xffu8, 0xd9u8, p + 2) {
                        None => {
                            assert(views(frames@) + Seq::<Seq<u8>>::empty() =~= views(frames@));
                            rest_from = p;
                            done = true;
                        },
                        Some(q) => {
                            proof {
                                lemma_find_marker(all, 0xffu8, 0xd9u8, p as int + 2);
                            }
                            let mut frame: Vec<u8> = Vec::new();
                            let sl = self.buf.as_slice();
                            push_all(&mut frame, &sl[p..q + 2]);
                            assert(frame@ =~= b.take(q - p + 2));
                            assert(b.skip(q - p + 2) =~= all.skip(q + 2));
                            let ghost fv = views(frames@);
                            frames.push(frame);
                            assert(views(frames@) =~= fv.push(b.take(q - p + 2)));
                            assert(fv + (seq![b.take(q - p + 2)] + scan_jpegs(all.skip(q + 2)).0)
                                =~= views(frames@) + scan_jpegs(all.skip(q + 2)).0);
                            pos = q + 2;
                        },
                    }
                },
            }
        }
        let mut rest: Vec<u8> = Vec::new();
        let sl = self.buf.as_slice();
        push_all(&mut rest, &sl[rest_from..n]);
        assert(rest@ =~= all.skip(rest_from as int));
        self.buf = rest;
        frames
    }
}

/// Every image a scan hands out starts with SOI and ends with EOI.
pub proof fn lemma_scanned_frames_whole(buf: Seq<u8>)
    ensures
        forall|i: int|
            0 <= i < scan_jpegs(buf).0.len() ==> starts_soi(#[trigger] scan_jpegs(buf).0[i])
                && ends_eoi(scan_jpegs(buf).0[i]),
    decreases buf.len(),
{
    lemma_find_marker(buf, 0xffu8, 0xd8u8, 0);
    match find_marker(buf, 0xffu8, 0xd8u8, 0) {
        None => {},
        Some(p) => {
            let b = buf.skip(p);
            lemma_find_marker(b, 0xffu8, 0xd9u8, 2);
            match find_marker(b, 0xffu8, 0xd9u8, 2) {
                None => {},
                Some(q) => {
                    lemma_scanned_frames_whole(b.skip(q + 2));
                    let f = b.take(q + 2);
                    let rest = scan_jpegs(b.skip(q + 2));
                    assert(marker_at(buf, 0xffu8, 0xd8u8, p));
                    assert(f[0] == buf[p] && f[1] == buf[p + 1]);
                    assert(f[f.len() - 2] == b[q] && f[f.len() - 1] == b[q + 1]);
                    assert forall|i: int| 0 <= i < scan_jpegs(buf).0.len() implies starts_soi(
                        #[trigger] scan_jpegs(buf).0[i],
                    ) && ends_eoi(scan_jpegs(buf).0[i]) by {
                        if i > 0 {
                            assert(scan_jpegs(buf).0[i] == rest.0[i - 1]);
                        }
                    }
                },
            }
        },
    }
}

/// An image at the front of the bytes, whose first EOI after the SOI is its end, comes
/// out whole, and the scan goes on with the bytes after it.
pub proof fn lemma_scan_leading_image(f: Seq<u8>, rest: Seq<u8>)
    requires
        starts_soi(f),
        find_marker(f, 0xffu8, 0xd9u8, 2) == Some(f.len() - 2),
    ensures
        scan_jpegs(f + rest) == (seq![f] + scan_jpegs(rest).0, scan_jpegs(rest).1),
{
    let u = f + rest;
    assert(u[0] == f[0] && u[1] == f[1]);
    assert(find_marker(u, 0xffu8, 0xd8u8, 0) == Some(0int));
    assert(u.skip(0) =~= u);
    lemma_find_marker_extend(f, rest, 0xffu8, 0xd9u8, 2);
    assert(u.take(f.len() as int) =~= f);
    assert(u.skip(f.len() as int) =~= rest);
}

} // verus!
