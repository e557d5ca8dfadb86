//! The fill over the cache: what to read into a chunk, and what is done when the read is
//! over.
use crate::fill::asking::{
    ask_async_active, ask_efatfs_read_at, ask_efatfs_read_awaited, ask_signal_fill,
    efatfs_read_awaited_asked, host_asked_since, lemma_host_asked, lemma_host_asked_none,
    lemma_host_asked_one, waited_for,
};
use crate::fill::chunk::{
    payload_address, ChunkStore, DelugeChunkConvertState, StoredChunk, StreamedChunk,
};
use crate::fill::context::{fill_context_for, FillContext, FillContexts};
use crate::fill::fill_logic::{
    begin, finish_convert_stitch, finished, gave, next_stitched, overlay, prev_stitched, write_over,
    ConvertState, Converted, FillGeometry, NeighbourView, SampleConvert, Stitched,
};
use crate::resource::facade::{
    lease_addr, queued_at, request_outcome, Backend, Chunk, Lease, Resource,
};
use crate::resource::model::Model;
use crate::resource::trace::{goes_on, request_asks, since, Event, Reply};
use vstd::prelude::*;

verus! {

/// What streaming asks of the program around it, besides memory: the card, the conversion
/// of sample formats, and a way to wake the loader.
pub trait Host: SampleConvert {
    /// Reads `count` bytes at `byte_offset` of an open file. Says whether the read went
    /// well, and gives what was read. A fill asks for whole sectors, and a file owns the
    /// whole of its last sector: what is there behind the file's end is given too. Fewer
    /// bytes than `count` are a short read, and a fill takes that as a failure.
    fn efatfs_read_at(&mut self, handle: u32, byte_offset: u32, count: u32) -> (bool, Vec<u8>);

    /// Whether a task of the host makes the reads, so that a reader has to wait for it.
    fn async_active(&mut self) -> bool;

    /// The same read, made by that task, which is waited for; or, where nobody may wait, the
    /// urgency at which the chunk is to be queued for the task instead.
    fn efatfs_read_awaited(&mut self, handle: u32, byte_offset: u32, count: u32) -> Awaited;

    /// Wakes the loader after a chunk was queued.
    fn signal_fill(&mut self);
}

/// The answer to a read that may have to be waited for.
pub enum Awaited {
    /// The read was made: whether it went well, and what was read.
    Read(bool, Vec<u8>),
    /// Nobody may wait here: the chunk is to be queued at this urgency.
    Later(u32),
}

/// What to read, and to which chunk's payload.
#[derive(Clone, Copy, PartialEq, Eq, Debug, Structural)]
pub struct StreamingFillDescriptor {
    pub dest: usize,
    pub num_sectors: u32,
    pub ok: bool,
    pub handle: u32,
    pub byte_offset: u32,
}

/// The descriptor of a chunk that cannot be read.
pub open spec fn spec_geometry_error() -> StreamingFillDescriptor {
    StreamingFillDescriptor { dest: 0, num_sectors: 0, ok: false, handle: 0, byte_offset: 0 }
}

/// The descriptor of a chunk that cannot be read.
pub fn geometry_error() -> (r: StreamingFillDescriptor)
    ensures
        r == spec_geometry_error(),
{
    StreamingFillDescriptor { dest: 0, num_sectors: 0, ok: false, handle: 0, byte_offset: 0 }
}

/// The conversion state, as the conversion takes it.
pub open spec fn logic_state(s: DelugeChunkConvertState) -> ConvertState {
    ConvertState {
        first_three_bytes: s.first_three_bytes,
        start_converted: s.start_converted,
        end_converted: s.end_converted,
    }
}

/// The conversion state, as a chunk keeps it.
pub open spec fn chunk_state(s: ConvertState) -> DelugeChunkConvertState {
    DelugeChunkConvertState {
        first_three_bytes: s.first_three_bytes,
        start_converted: s.start_converted,
        end_converted: s.end_converted,
    }
}

/// The conversion state, as the conversion takes it.
pub fn to_logic_state(s: DelugeChunkConvertState) -> (r: ConvertState)
    ensures
        r == logic_state(s),
{
    ConvertState {
        first_three_bytes: s.first_three_bytes,
        start_converted: s.start_converted,
        end_converted: s.end_converted,
    }
}

/// The conversion state, as a chunk keeps it.
pub fn from_logic_state(s: ConvertState) -> (r: DelugeChunkConvertState)
    ensures
        r == chunk_state(s),
{
    DelugeChunkConvertState {
        first_three_bytes: s.first_three_bytes,
        start_converted: s.start_converted,
        end_converted: s.end_converted,
    }
}

/// The part of a context that the fill reads.
pub open spec fn fill_geometry(ctx: FillContext) -> FillGeometry {
    FillGeometry {
        audio_data_start_pos_bytes: ctx.audio_data_start_pos_bytes,
        audio_data_length_bytes: ctx.audio_data_length_bytes,
        first_cluster_index_with_no_audio_data: ctx.first_cluster_index_with_no_audio_data,
        cluster_size: ctx.cluster_size,
        cluster_size_magnitude: ctx.cluster_size_magnitude,
        raw_data_format: ctx.raw_data_format,
    }
}

/// The part of a context that the fill reads.
pub fn to_fill_geometry(ctx: &FillContext) -> (r: FillGeometry)
    ensures
        r == fill_geometry(*ctx),
{
    FillGeometry {
        audio_data_start_pos_bytes: ctx.audio_data_start_pos_bytes,
        audio_data_length_bytes: ctx.audio_data_length_bytes,
        first_cluster_index_with_no_audio_data: ctx.first_cluster_index_with_no_audio_data,
        cluster_size: ctx.cluster_size,
        cluster_size_magnitude: ctx.cluster_size_magnitude,
        raw_data_format: ctx.raw_data_format,
    }
}

/// The asset, index and context of the chunk at `p`, if it is resident and its asset has
/// a context.
pub open spec fn resolved(
    m: Model,
    contexts: Map<u32, FillContext>,
    p: usize,
) -> Option<(u32, u32, FillContext)> {
    match m.slot_at(p) {
        Some(i) => if contexts.dom().contains(m.chunks[i].asset) {
            Some((m.chunks[i].asset, m.chunks[i].index, contexts[m.chunks[i].asset]))
        } else {
            None
        },
        None => None,
    }
}

/// What to read into the chunk at `p`. Nothing can be read if the chunk or its context is
/// not known, or the cluster is past the audio data.
pub open spec fn fill_descriptor(
    m: Model,
    contexts: Map<u32, FillContext>,
    chunks: Map<usize, StoredChunk>,
    p: usize,
) -> StreamingFillDescriptor {
    match resolved(m, contexts, p) {
        Some((asset, index, ctx)) => {
            let geo = fill_geometry(ctx);
            if ctx.cluster_size_magnitude >= 32 || !chunks.dom().contains(p) || geo.past_end(
                index,
            ) {
                spec_geometry_error()
            } else {
                StreamingFillDescriptor {
                    dest: chunks[p].header.payload,
                    num_sectors: geo.sectors(index) as u32,
                    ok: true,
                    handle: ctx.efatfs_handle,
                    byte_offset: geo.byte_offset(index),
                }
            }
        },
        None => spec_geometry_error(),
    }
}

/// A chunk as its neighbour's stitch sees it.
pub open spec fn as_neighbour(c: StoredChunk) -> NeighbourView {
    NeighbourView {
        payload: c.bytes,
        unconverted_head: c.header.first_three_bytes,
        start_converted: c.header.extra_bytes_start_converted,
        end_converted: c.header.extra_bytes_end_converted,
    }
}

/// Chunk `c` became `d` as the neighbour view `w` says.
pub open spec fn stored_back(c: StoredChunk, w: NeighbourView, d: StoredChunk) -> bool {
    &&& d.bytes@ == w.payload@
    &&& d.header == c.header.with_state(
        DelugeChunkConvertState {
            first_three_bytes: w.unconverted_head,
            start_converted: w.start_converted,
            end_converted: w.end_converted,
        },
    )
}

/// The address of the neighbour that a fill of `(asset, index)` leases, if it is resident
/// and ready: cluster `index - 1`.
#[verifier::opaque]
pub open spec fn prev_leased(m: Model, asset: u32, index: u32) -> usize {
    if index > 0 {
        m.try_acquire_result(asset, (index - 1) as u32)
    } else {
        0
    }
}

/// After leasing the previous neighbour.
#[verifier::opaque]
pub open spec fn after_prev(m: Model, asset: u32, index: u32) -> Model {
    if index > 0 {
        m.try_acquire(asset, (index - 1) as u32)
    } else {
        m
    }
}

/// The address of the other neighbour that a fill leases: cluster `index + 1`.
#[verifier::opaque]
pub open spec fn next_leased(m: Model, asset: u32, index: u32) -> usize {
    if index < u32::MAX {
        m.try_acquire_result(asset, (index + 1) as u32)
    } else {
        0
    }
}

/// After leasing the next neighbour.
#[verifier::opaque]
pub open spec fn after_next(m: Model, asset: u32, index: u32) -> Model {
    if index < u32::MAX {
        m.try_acquire(asset, (index + 1) as u32)
    } else {
        m
    }
}

/// After giving a lease back, if there is one.
pub open spec fn released_if(m: Model, p: usize) -> Model {
    if p != 0 {
        m.release(p)
    } else {
        m
    }
}

/// The tables after the fill of the chunk at `p` is over: each neighbour was leased for as
/// long as the stitch took, and the chunk is ready.
pub open spec fn tables_after_finish(m: Model, p: usize, asset: u32, index: u32) -> Model {
    let a = m.searched_ptr(p);
    let b = after_prev(a, asset, index);
    let c = after_next(b, asset, index);
    released_if(
        released_if(c, prev_leased(a, asset, index)),
        next_leased(b, asset, index),
    ).mark_ready(p)
}

/// The chunk at `q` takes part in the stitch of another chunk: it is long enough.
pub open spec fn stitchable(chunks: Map<usize, StoredChunk>, q: usize, cluster_size: u32) -> bool {
    &&& chunks.dom().contains(q)
    &&& cluster_size >= 4
    &&& chunks[q].bytes@.len() >= cluster_size + 7
}

/// The chunk at `q` as a neighbour, if it takes part.
pub open spec fn neighbour_at(
    chunks: Map<usize, StoredChunk>,
    q: usize,
    cluster_size: u32,
) -> Option<NeighbourView> {
    if q != 0 && stitchable(chunks, q, cluster_size) {
        Some(as_neighbour(chunks[q]))
    } else {
        None
    }
}

/// The chunk at `q`, a neighbour, after the stitch that left it as `w`.
pub open spec fn neighbour_stored(
    chunks: Map<usize, StoredChunk>,
    q: usize,
    w: Option<NeighbourView>,
    after: Map<usize, StoredChunk>,
) -> bool {
    w is Some ==> after.dom().contains(q) && stored_back(chunks[q], w->0, after[q])
}

/// The neighbour `prev` of the chunk at `p` for which the chunk at `pq` was leased.
pub open spec fn prev_view(
    chunks: Map<usize, StoredChunk>,
    p: usize,
    pq: usize,
    cluster_size: u32,
) -> Option<NeighbourView> {
    neighbour_at(chunks.remove(p), pq, cluster_size)
}

/// The neighbour `next` of the chunk at `p` for which the chunk at `nq` was leased. One
/// chunk is not both neighbours.
pub open spec fn next_view(
    chunks: Map<usize, StoredChunk>,
    p: usize,
    pq: usize,
    nq: usize,
    cluster_size: u32,
) -> Option<NeighbourView> {
    if prev_view(chunks, p, pq, cluster_size) is Some {
        neighbour_at(chunks.remove(p).remove(pq), nq, cluster_size)
    } else {
        neighbour_at(chunks.remove(p), nq, cluster_size)
    }
}

/// The chunks after the fill of the chunk at `p`, whose stitch took part with the
/// neighbours `prev` at `pq` and `next` at `nq`: it is converted and loaded, of the
/// neighbours only the edges changed, and all else is as it was.
#[verifier::opaque]
pub open spec fn chunks_after_finish<C: SampleConvert>(
    old_chunks: Map<usize, StoredChunk>,
    geo: FillGeometry,
    p: usize,
    index: u32,
    pq: usize,
    nq: usize,
    prev: Option<NeighbourView>,
    next: Option<NeighbourView>,
    new_chunks: Map<usize, StoredChunk>,
) -> bool {
    &&& new_chunks.dom() == old_chunks.dom()
    &&& exists|
        c: Converted,
        s: Stitched,
        st: ConvertState,
        v: Option<NeighbourView>,
        w: Option<NeighbourView>,
    |
        {
            &&& #[trigger] finished(old_chunks[p].bytes@, geo, c, s, new_chunks[p].bytes@, st)
            &&& gave::<C>(
                old_chunks[p].bytes@,
                index,
                geo,
                logic_state(old_chunks[p].header.state()),
                prev,
                next,
                c,
                s,
            )
            &&& new_chunks[p].header == (StreamedChunk {
                loaded: true,
                ..old_chunks[p].header.with_state(chunk_state(st))
            })
            &&& #[trigger] prev_stitched(prev, geo.cluster_size as int, s.prev, v)
            &&& neighbour_stored(old_chunks, pq, v, new_chunks)
            &&& #[trigger] next_stitched(next, s.next, w)
            &&& neighbour_stored(old_chunks, nq, w, new_chunks)
        }
    &&& forall|q: usize|
        q != p && !(prev is Some && q == pq) && !(next is Some && q == nq)
            && old_chunks.dom().contains(q) ==> #[trigger] new_chunks[q] == old_chunks[q]
}

/// The same, for the neighbours that are found at `pq` and `nq`.
pub open spec fn stitched_chunks<C: SampleConvert>(
    old_chunks: Map<usize, StoredChunk>,
    geo: FillGeometry,
    p: usize,
    index: u32,
    pq: usize,
    nq: usize,
    new_chunks: Map<usize, StoredChunk>,
) -> bool {
    chunks_after_finish::<C>(
        old_chunks,
        geo,
        p,
        index,
        pq,
        nq,
        prev_view(old_chunks, p, pq, geo.cluster_size),
        next_view(old_chunks, p, pq, nq, geo.cluster_size),
        new_chunks,
    )
}

/// What ending the fill of the chunk at `p` does, `r` being the result. Nothing if the
/// read failed; nothing but a lookup if the chunk, its context or its bytes are not known.
pub open spec fn finish_outcome<C: SampleConvert>(
    m: Model,
    contexts: Map<u32, FillContext>,
    chunks: Map<usize, StoredChunk>,
    p: usize,
    read_ok: bool,
    r: bool,
    n: Model,
    new_chunks: Map<usize, StoredChunk>,
) -> bool {
    if !read_ok {
        !r && n == m && new_chunks == chunks
    } else {
        match resolved(m, contexts, p) {
            Some((asset, index, ctx)) => if chunks.dom().contains(p) && chunks[p].bytes@.len()
                >= ctx.cluster_size + 7 {
                let a = m.searched_ptr(p);
                &&& r
                &&& n == tables_after_finish(m, p, asset, index)
                &&& stitched_chunks::<C>(
                    chunks,
                    fill_geometry(ctx),
                    p,
                    index,
                    prev_leased(a, asset, index),
                    next_leased(after_prev(a, asset, index), asset, index),
                    new_chunks,
                )
            } else {
                !r && n == m.searched_ptr(p) && new_chunks == chunks
            },
            None => !r && n == m.searched_ptr(p) && new_chunks == chunks,
        }
    }
}

/// The chunks after `data` was read into the chunk at `p`.
pub open spec fn read_into(
    chunks: Map<usize, StoredChunk>,
    p: usize,
    data: Seq<u8>,
    after: Map<usize, StoredChunk>,
) -> bool {
    &&& after == chunks.insert(p, after[p])
    &&& after[p].header == chunks[p].header
    &&& after[p].bytes@ == overlay(chunks[p].bytes@, 0, data, chunks[p].bytes@.len() as int)
}

/// What filling the chunk at `p` does, if the card answers `read_ok` and `data`: what was
/// read is written to the chunk, and the fill is ended.
pub open spec fn fill_outcome<C: SampleConvert>(
    m: Model,
    contexts: Map<u32, FillContext>,
    chunks: Map<usize, StoredChunk>,
    p: usize,
    read_ok: bool,
    data: Seq<u8>,
    r: bool,
    n: Model,
    new_chunks: Map<usize, StoredChunk>,
) -> bool {
    exists|mid: Map<usize, StoredChunk>| #[trigger]
        read_into(chunks, p, data, mid) && finish_outcome::<C>(
            m.searched_ptr(p),
            contexts,
            mid,
            p,
            read_ok,
            r,
            n,
            new_chunks,
        )
}

/// The read that `d` describes, and the answer.
pub open spec fn read_event(
    awaited: bool,
    d: StreamingFillDescriptor,
    ok: bool,
    data: Seq<u8>,
) -> HostEvent {
    HostEvent::Read {
        awaited,
        handle: d.handle,
        byte_offset: d.byte_offset,
        count: (d.num_sectors * 512) as u32,
        ok,
        data,
    }
}

/// The read that `d` describes, put off: the chunk is to be queued at `priority`.
pub open spec fn later_event(d: StreamingFillDescriptor, priority: u32) -> HostEvent {
    HostEvent::Later {
        handle: d.handle,
        byte_offset: d.byte_offset,
        count: (d.num_sectors * 512) as u32,
        priority,
    }
}

/// The last answer put a read off.
pub open spec fn deferred(a: StreamView, b: StreamView) -> bool {
    b.asked.len() == a.asked.len() + 1 && b.asked.last() is Later
}

/// The read that `d` describes went well, and gave all that was asked for.
pub open spec fn whole_read(d: StreamingFillDescriptor, ok: bool, data: Seq<u8>) -> bool {
    ok && data.len() >= d.num_sectors * 512
}

/// What filling the chunk at `p` now does: nothing but a lookup if nothing can be read;
/// otherwise the card is asked once, and what it answers decides. A read that gives less
/// than was asked for has failed. Where the read would have to be waited for and nobody may
/// wait, the chunk is queued and not filled.
#[verifier::opaque]
pub open spec fn fill_now_outcome<C: SampleConvert>(
    m: Model,
    contexts: Map<u32, FillContext>,
    a: StreamView,
    p: usize,
    awaited: bool,
    r: bool,
    n: Model,
    b: StreamView,
) -> bool {
    let d = fill_descriptor(m, contexts, a.chunks, p);
    if d.ok && deferred(a, b) {
        &&& awaited
        &&& !r
        &&& b == (StreamView { asked: a.asked.push(later_event(d, b.asked.last()->priority)), ..a })
        &&& n == queued_at(m.searched_ptr(p), p, b.asked.last()->priority)
    } else if d.ok {
        &&& b.memory == a.memory
        &&& b.reclaim == a.reclaim
        &&& exists|read_ok: bool, data: Seq<u8>|
            {
                &&& #[trigger] fill_outcome::<C>(
                    m,
                    contexts,
                    a.chunks,
                    p,
                    read_ok,
                    data,
                    r,
                    n,
                    b.chunks,
                )
                &&& b.asked == a.asked.push(read_event(awaited, d, b.asked.last()->ok, data))
                &&& read_ok == whole_read(d, b.asked.last()->ok, data)
            }
    } else {
        !r && n == m.searched_ptr(p) && b == a
    }
}

/// The chunks after a chunk for cluster `index` was constructed at `p`: nothing of it is
/// loaded or converted.
pub open spec fn constructed(
    chunks: Map<usize, StoredChunk>,
    p: usize,
    index: u32,
    cluster_size: u32,
    new_chunks: Map<usize, StoredChunk>,
) -> bool {
    &&& new_chunks == chunks.insert(p, new_chunks[p])
    &&& new_chunks[p].header.fresh(index, payload_address(p))
    &&& new_chunks[p].bytes@ == Seq::new(payload_len(cluster_size) as nat, |i: int| 0u8)
}

/// Cluster `index` of `asset` reserved at `p`, and constructed if it was not resident; 0 if
/// it cannot be reserved.
pub open spec fn reserved_for(
    m: Model,
    data: StreamView,
    asset: u32,
    index: u32,
    cluster_size: u32,
    p: usize,
    n: Model,
    new_data: StreamView,
) -> bool {
    &&& n.consistent()
    &&& request_outcome(m, asset, index, cluster_size as usize, p, n)
    &&& new_data == (StreamView { chunks: new_data.chunks, memory: new_data.memory, ..data })
    &&& goes_on(data.memory, new_data.memory)
    &&& request_asks(
        m,
        asset,
        index,
        cluster_size as usize,
        data.reclaim,
        since(data.memory, new_data.memory),
        p,
        n,
    )
    &&& if p != 0 && m.resident(asset, index) is None {
        constructed(data.chunks, p, index, cluster_size, new_data.chunks)
    } else {
        new_data.chunks == data.chunks
    }
}

/// Bytes of a chunk: the cluster and the slack behind it.
pub open spec fn payload_len(cluster_size: u32) -> int {
    if cluster_size + 7 > usize::MAX {
        usize::MAX as int
    } else {
        cluster_size + 7
    }
}

/// Something that was asked of the host, and the answer.
pub enum HostEvent {
    Read {
        awaited: bool,
        handle: u32,
        byte_offset: u32,
        count: u32,
        ok: bool,
        data: Seq<u8>,
    },
    /// A read that was put off.
    Later { handle: u32, byte_offset: u32, count: u32, priority: u32 },
    AsyncActive { active: bool },
    Woken,
}

/// A read through the host's task, and the answer.
pub open spec fn awaited_event(
    handle: u32,
    byte_offset: u32,
    count: u32,
    r: Awaited,
) -> HostEvent {
    match r {
        Awaited::Read(ok, data) => HostEvent::Read {
            awaited: true,
            handle,
            byte_offset,
            count,
            ok,
            data: data@,
        },
        Awaited::Later(priority) => HostEvent::Later { handle, byte_offset, count, priority },
    }
}

/// What streaming keeps besides the tables and the contexts.
pub struct StreamView {
    /// The chunks, by address.
    pub chunks: Map<usize, StoredChunk>,
    /// What was asked of the host so far.
    pub asked: Seq<HostEvent>,
    /// What the cache asked for so far.
    pub memory: Seq<Event>,
    /// An allocation that fails evicts and tries again.
    pub reclaim: bool,
}

/// The cache with what streaming adds: the assets' contexts and the chunks' bytes.
pub struct Streaming<B: Backend, H: Host> {
    pub res: Resource<B>,
    pub contexts: FillContexts,
    pub chunks: ChunkStore,
    pub host: H,
    /// What was asked of the host, with the answers.
    pub history: Ghost<Seq<HostEvent>>,
}

impl<B: Backend, H: Host> Streaming<B, H> {
    pub open spec fn wf(&self) -> bool {
        self.res.wf() && self.contexts.wf()
    }

    /// What it keeps besides the tables and the contexts. How what is asked changes the host
    /// and the backend is told by `follows`.
    pub open spec fn data(&self) -> StreamView {
        StreamView {
            chunks: self.chunks@,
            asked: self.history@,
            memory: self.res.trace(),
            reclaim: self.res.reclaim,
        }
    }

    /// It has gone on from `earlier`: what is new in the histories was asked of the cache's
    /// backend and of the host, in that order and with those answers, and they were asked
    /// nothing else. The contexts are the same.
    pub open spec fn follows(self, earlier: Self) -> bool {
        &&& self.res.follows(earlier.res)
        &&& host_asked_since(earlier.history@, earlier.host, self.history@, self.host)
        &&& self.contexts == earlier.contexts
    }

    /// It has gone on to `self`, and from there to `later`.
    pub proof fn lemma_follows(self, earlier: Self, later: Self)
        requires
            self.follows(earlier),
            later.follows(self),
        ensures
            later.follows(earlier),
    {
        self.res.lemma_follows(earlier.res, later.res);
        lemma_host_asked(
            earlier.history@,
            earlier.host,
            self.history@,
            self.host,
            later.history@,
            later.host,
        );
    }

    /// It has gone on with questions of the cache alone.
    pub proof fn lemma_stays(self, earlier: Self)
        requires
            self.res.follows(earlier.res),
            self.history@ == earlier.history@,
            self.host == earlier.host,
            self.contexts == earlier.contexts,
        ensures
            self.follows(earlier),
    {
        lemma_host_asked_none(self.history@, self.host);
    }

    /// It has gone on without a question.
    pub proof fn lemma_silent(self, earlier: Self)
        requires
            self.res.trace() == earlier.res.trace(),
            self.res.backend == earlier.res.backend,
            self.history@ == earlier.history@,
            self.host == earlier.host,
            self.contexts == earlier.contexts,
        ensures
            self.follows(earlier),
    {
        self.res.lemma_stays(earlier.res);
        self.lemma_stays(earlier);
    }

    /// Reads from the card at once.
    fn ask_read(&mut self, handle: u32, byte_offset: u32, count: u32) -> (r: (bool, Vec<u8>))
        ensures
            final(self).res == old(self).res,
            final(self).contexts == old(self).contexts,
            final(self).chunks == old(self).chunks,
            final(self).history@ == old(self).history@.push(
                HostEvent::Read { awaited: false, handle, byte_offset, count, ok: r.0, data: r.1@ },
            ),
            final(self).follows(*old(self)),
    {
        let reply = ask_efatfs_read_at(&mut self.host, handle, byte_offset, count);
        let (ok, data): (bool, Vec<u8>) = reply.answer;
        proof {
            assert(reply == (Reply {
                answer: (ok, data),
                before: Ghost(old(self).host),
                after: Ghost(self.host),
            }));
            let e = HostEvent::Read {
                awaited: false,
                handle,
                byte_offset,
                count,
                ok,
                data: data@,
            };
            lemma_host_asked_one(self.history@, old(self).host, e, self.host);
            self.history = Ghost(self.history@.push(e));
            self.res.lemma_stays(old(self).res);
        }
        (ok, data)
    }

    /// Reads from the card through the host's task, if that can be waited for.
    fn ask_read_awaited(&mut self, handle: u32, byte_offset: u32, count: u32) -> (r: Awaited)
        ensures
            final(self).res == old(self).res,
            final(self).contexts == old(self).contexts,
            final(self).chunks == old(self).chunks,
            final(self).history@ == old(self).history@.push(
                awaited_event(handle, byte_offset, count, r),
            ),
            final(self).follows(*old(self)),
    {
        let reply = ask_efatfs_read_awaited(&mut self.host, handle, byte_offset, count);
        let r = reply.answer;
        proof {
            let e = awaited_event(handle, byte_offset, count, r);
            assert(reply == (Reply {
                answer: r,
                before: Ghost(old(self).host),
                after: Ghost(self.host),
            }));
            assert(efatfs_read_awaited_asked(
                old(self).host,
                handle,
                byte_offset,
                count,
                r,
                self.host,
            ));
            match r {
                Awaited::Read(ok, ref data) => {
                    assert(r == Awaited::Read(ok, *data));
                    assert(waited_for(
                        old(self).host,
                        handle,
                        byte_offset,
                        count,
                        ok,
                        data@,
                        self.host,
                    ));
                },
                Awaited::Later(_) => {},
            }
            lemma_host_asked_one(self.history@, old(self).host, e, self.host);
            self.history = Ghost(self.history@.push(e));
            self.res.lemma_stays(old(self).res);
        }
        r
    }

    /// Asks whether the host's task makes the reads.
    pub(crate) fn ask_async_active(&mut self) -> (r: bool)
        ensures
            final(self).res == old(self).res,
            final(self).contexts == old(self).contexts,
            final(self).chunks == old(self).chunks,
            final(self).history@ == old(self).history@.push(HostEvent::AsyncActive { active: r }),
            final(self).follows(*old(self)),
    {
        let reply = ask_async_active(&mut self.host);
        let r = reply.answer;
        proof {
            assert(reply == (Reply {
                answer: r,
                before: Ghost(old(self).host),
                after: Ghost(self.host),
            }));
            lemma_host_asked_one(
                self.history@,
                old(self).host,
                HostEvent::AsyncActive { active: r },
                self.host,
            );
            self.res.lemma_stays(old(self).res);
            self.history = Ghost(self.history@.push(HostEvent::AsyncActive { active: r }));
        }
        r
    }

    /// Wakes the loader.
    pub(crate) fn ask_wake(&mut self)
        ensures
            final(self).res == old(self).res,
            final(self).contexts == old(self).contexts,
            final(self).chunks == old(self).chunks,
            final(self).history@ == old(self).history@.push(HostEvent::Woken),
            final(self).follows(*old(self)),
    {
        let reply = ask_signal_fill(&mut self.host);
        proof {
            assert(reply == (Reply {
                answer: (),
                before: Ghost(old(self).host),
                after: Ghost(self.host),
            }));
            lemma_host_asked_one(self.history@, old(self).host, HostEvent::Woken, self.host);
            self.res.lemma_stays(old(self).res);
            self.history = Ghost(self.history@.push(HostEvent::Woken));
        }
    }

    /// Streaming over the cache `res`, with no contexts and no chunks.
    pub fn new(res: Resource<B>, host: H) -> (r: Self)
        requires
            res.wf(),
        ensures
            r.wf(),
            r.res == res,
            r.host == host,
            r.history@ == Seq::<HostEvent>::empty(),
            r.contexts@ == Map::<u32, FillContext>::empty(),
            r.chunks@ == Map::<usize, StoredChunk>::empty(),
    {
        Streaming {
            res,
            contexts: FillContexts::new(),
            chunks: ChunkStore::new(),
            host,
            history: Ghost(Seq::empty()),
        }
    }

    /// The asset, index and context of `chunk`.
    fn resolve(&mut self, chunk: Chunk) -> (r: Option<(u32, u32, FillContext)>)
        requires
            old(self).wf(),
        ensures
            final(self).wf(),
            *final(self) == (Streaming { res: final(self).res, ..*old(self) }),
            final(self).res.reclaim == old(self).res.reclaim,
            final(self).res.trace() == old(self).res.trace(),
            final(self).res.backend == old(self).res.backend,
            final(self).res@ == old(self).res@.searched_ptr(chunk@),
            r == resolved(old(self).res@, old(self).contexts@, chunk@),
    {
        match self.res.chunk_ident(chunk) {
            Some((asset, index)) => match fill_context_for(&self.contexts, asset) {
                Some(ctx) => Some((asset, index, ctx)),
                None => None,
            },
            None => None,
        }
    }

    /// What to read into `chunk`.
    pub fn native_begin(&mut self, chunk: Chunk) -> (r: StreamingFillDescriptor)
        requires
            old(self).wf(),
        ensures
            final(self).wf(),
            *final(self) == (Streaming { res: final(self).res, ..*old(self) }),
            final(self).res.reclaim == old(self).res.reclaim,
            final(self).res.trace() == old(self).res.trace(),
            final(self).res.backend == old(self).res.backend,
            final(self).res@ == old(self).res@.searched_ptr(chunk@),
            r == fill_descriptor(
                old(self).res@,
                old(self).contexts@,
                old(self).chunks@,
                chunk@,
            ),
            r.num_sectors * 512 <= u32::MAX,
    {
        let (index, ctx): (u32, FillContext) = match self.resolve(chunk) {
            Some((_, index, ctx)) => (index, ctx),
            None => {
                return geometry_error();
            },
        };
        if ctx.cluster_size_magnitude >= 32 || !self.chunks.contains(chunk.as_ptr()) {
            return geometry_error();
        }
        let geo = to_fill_geometry(&ctx);
        let r = begin(index, &geo);
        if !r.ok {
            return geometry_error();
        }
        StreamingFillDescriptor {
            dest: self.chunks.payload(chunk.as_ptr()),
            num_sectors: r.num_sectors,
            ok: true,
            handle: ctx.efatfs_handle,
            byte_offset: r.byte_offset,
        }
    }

    /// Takes the chunk at `q` out of the store for a stitch, if it is long enough.
    fn take_neighbour(&mut self, q: usize, cluster_size: u32) -> (r: Option<StoredChunk>)
        ensures
            final(self).res == old(self).res,
            final(self).contexts == old(self).contexts,
            final(self).host == old(self).host,
            final(self).history == old(self).history,
            if q != 0 && stitchable(old(self).chunks@, q, cluster_size) {
                &&& r == Some(old(self).chunks@[q])
                &&& final(self).chunks@ == old(self).chunks@.remove(q)
            } else {
                &&& r is None
                &&& final(self).chunks@ == old(self).chunks@
            },
    {
        if q == 0 || cluster_size < 4 {
            return None;
        }
        match self.chunks.take(q) {
            Some(c) => {
                if (c.bytes.len() as u64) < cluster_size as u64 + 7 {
                    self.chunks.put(q, c);
                    assert(self.chunks@ =~= old(self).chunks@);
                    None
                } else {
                    Some(c)
                }
            },
            None => {
                assert(self.chunks@ =~= old(self).chunks@);
                None
            },
        }
    }

    /// Ends the fill of `chunk` when the read is over: converts it, stitches it with its
    /// neighbours that are resident and ready, which are leased meanwhile, and says that
    /// it is loaded and ready. False, with nothing said of the chunk, if the read failed
    /// or the chunk, its context or its bytes are not known.
    pub fn native_finish(&mut self, chunk: Chunk, read_ok: bool) -> (r: bool)
        requires
            old(self).wf(),
        ensures
            final(self).wf(),
            final(self).contexts == old(self).contexts,
            final(self).host == old(self).host,
            final(self).history == old(self).history,
            final(self).res.reclaim == old(self).res.reclaim,
            final(self).res.trace() == old(self).res.trace(),
            final(self).res.backend == old(self).res.backend,
            !read_ok ==> *final(self) == *old(self),
            finish_outcome::<H>(
                old(self).res@,
                old(self).contexts@,
                old(self).chunks@,
                chunk@,
                read_ok,
                r,
                final(self).res@,
                final(self).chunks@,
            ),
    {
        if !read_ok {
            return false;
        }
        let (asset, index, ctx): (u32, u32, FillContext) = match self.resolve(chunk) {
            Some(z) => z,
            None => {
                return false;
            },
        };
        let geo = to_fill_geometry(&ctx);
        let p: usize = chunk.as_ptr();
        let long_enough = match self.chunks.bytes(p) {
            Some(bytes) => bytes.len() as u64 >= ctx.cluster_size as u64 + 7,
            None => false,
        };
        if !long_enough {
            return false;
        }
        let prev = self.lease_prev(asset, index);
        let next = self.lease_next(asset, index);
        self.stitch_stored(p, index, &geo, leased_at(&prev), leased_at(&next));
        self.release_if(prev);
        self.release_if(next);
        self.res.mark_ready(chunk);
        true
    }

    /// Leases the previous neighbour of `(asset, index)` if it is resident and ready.
    fn lease_prev(&mut self, asset: u32, index: u32) -> (r: Option<Lease>)
        requires
            old(self).wf(),
        ensures
            final(self).wf(),
            *final(self) == (Streaming { res: final(self).res, ..*old(self) }),
            final(self).res.reclaim == old(self).res.reclaim,
            final(self).res.trace() == old(self).res.trace(),
            final(self).res.backend == old(self).res.backend,
            final(self).res@ == after_prev(old(self).res@, asset, index),
            lease_addr(r) == prev_leased(old(self).res@, asset, index),
            r is Some <==> lease_addr(r) != 0,
    {
        reveal(after_prev);
        reveal(prev_leased);
        if index > 0 {
            self.res.acquire_leased(asset, index - 1)
        } else {
            None
        }
    }

    /// Leases the next neighbour of `(asset, index)` if it is resident and ready.
    fn lease_next(&mut self, asset: u32, index: u32) -> (r: Option<Lease>)
        requires
            old(self).wf(),
        ensures
            final(self).wf(),
            *final(self) == (Streaming { res: final(self).res, ..*old(self) }),
            final(self).res.reclaim == old(self).res.reclaim,
            final(self).res.trace() == old(self).res.trace(),
            final(self).res.backend == old(self).res.backend,
            final(self).res@ == after_next(old(self).res@, asset, index),
            lease_addr(r) == next_leased(old(self).res@, asset, index),
            r is Some <==> lease_addr(r) != 0,
    {
        reveal(after_next);
        reveal(next_leased);
        if index < u32::MAX {
            self.res.acquire_leased(asset, index + 1)
        } else {
            None
        }
    }

    /// Gives a lease back, if there is one.
    fn release_if(&mut self, lease: Option<Lease>)
        requires
            old(self).wf(),
            lease is Some <==> lease_addr(lease) != 0,
        ensures
            final(self).wf(),
            *final(self) == (Streaming { res: final(self).res, ..*old(self) }),
            final(self).res.reclaim == old(self).res.reclaim,
            final(self).res.trace() == old(self).res.trace(),
            final(self).res.backend == old(self).res.backend,
            final(self).res@ == released_if(old(self).res@, lease_addr(lease)),
    {
        match lease {
            Some(l) => self.res.release_lease(l),
            None => {},
        }
    }

    /// Converts the chunk at `p` and stitches it with the chunks at `pq` and `nq`, as far
    /// as they are there and long enough.
    fn stitch_stored(&mut self, p: usize, index: u32, geo: &FillGeometry, pq: usize, nq: usize)
        requires
            old(self).chunks@.dom().contains(p),
            old(self).chunks@[p].bytes@.len() >= geo.cluster_size + 7,
        ensures
            final(self).res == old(self).res,
            final(self).contexts == old(self).contexts,
            final(self).host == old(self).host,
            final(self).history == old(self).history,
            stitched_chunks::<H>(old(self).chunks@, *geo, p, index, pq, nq, final(self).chunks@),
    {
        let ghost chunks0 = self.chunks@;
        let me = match self.chunks.take(p) {
            Some(c) => c,
            None => {
                return;
            },
        };
        let prev = self.take_neighbour(pq, geo.cluster_size);
        let next = self.take_neighbour(nq, geo.cluster_size);
        let ghost prev0 = prev_view(chunks0, p, pq, geo.cluster_size);
        let ghost next0 = next_view(chunks0, p, pq, nq, geo.cluster_size);
        let StoredChunk { header: my_header, bytes: my_bytes } = me;
        let mut payload = my_bytes;
        let mut state = to_logic_state(my_header.convert_state());
        let ghost state0 = state;
        let (prev_header, prev_now): (Option<StreamedChunk>, Option<NeighbourView>) = split(prev);
        let (next_header, next_now): (Option<StreamedChunk>, Option<NeighbourView>) = split(next);
        assert(prev_now == prev0);
        assert(next_now == next0);
        let (prev_after, next_after) = finish_convert_stitch::<H>(
            &mut payload,
            index,
            geo,
            &mut state,
            prev_now,
            next_now,
        );
        let ghost (c, s) = choose|c: Converted, s: Stitched|
            {
                &&& #[trigger] finished(chunks0[p].bytes@, *geo, c, s, payload@, state)
                &&& gave::<H>(chunks0[p].bytes@, index, *geo, state0, prev0, next0, c, s)
                &&& prev_stitched(prev0, geo.cluster_size as int, s.prev, prev_after)
                &&& next_stitched(next0, s.next, next_after)
            };
        let mut header = with_convert_state(my_header, from_logic_state(state));
        header.loaded = true;
        let ghost bytes1 = payload@;
        self.chunks.put(p, StoredChunk { header, bytes: payload });
        self.put_neighbour(pq, prev_header, prev_after);
        self.put_neighbour(nq, next_header, next_after);
        proof {
            let n = self.chunks@;
            assert(n.dom() =~= chunks0.dom());
            assert(n[p].header == header && n[p].bytes@ == bytes1);
            assert(neighbour_stored(chunks0, pq, prev_after, n));
            assert(neighbour_stored(chunks0, nq, next_after, n));
            assert(finished(chunks0[p].bytes@, *geo, c, s, n[p].bytes@, state));
            reveal(chunks_after_finish);
            assert(chunks_after_finish::<H>(chunks0, *geo, p, index, pq, nq, prev0, next0, n));
        }
    }

    /// Reserves cluster `index` of `asset` without loading it, and gives the lease on it. A
    /// chunk that was not resident before is constructed: nothing of it is loaded.
    pub fn request(&mut self, asset: u32, index: u32, cluster_size: u32) -> (r: Option<Lease>)
        requires
            old(self).wf(),
        ensures
            final(self).wf(),
            final(self).contexts == old(self).contexts,
            final(self).host == old(self).host,
            final(self).history == old(self).history,
            final(self).res.reclaim == old(self).res.reclaim,
            final(self).follows(*old(self)),
            r is Some <==> lease_addr(r) != 0,
            reserved_for(
                old(self).res@,
                old(self).data(),
                asset,
                index,
                cluster_size,
                lease_addr(r),
                final(self).res@,
                final(self).data(),
            ),
    {
        let (p, new): (usize, bool) = self.res.request_new(asset, index, cluster_size as usize);
        if new {
            self.chunks.construct(p, index, (cluster_size as usize).saturating_add(7));
        }
        proof {
            self.res.lemma_wf();
            self.lemma_stays(*old(self));
        }
        Lease::taken(p)
    }

    /// Fills `chunk`: reads its bytes from the card in one piece, at once or through the
    /// host's task, and ends the fill.
    /// False if nothing can be read, the read fails or is short, or the fill cannot be ended;
    /// and if nobody may wait for the task, in which case the chunk is queued for it.
    pub fn fill_with(&mut self, chunk: Chunk, awaited: bool) -> (r: bool)
        requires
            old(self).wf(),
        ensures
            final(self).wf(),
            final(self).contexts == old(self).contexts,
            final(self).res.reclaim == old(self).res.reclaim,
            final(self).res.trace() == old(self).res.trace(),
            final(self).res.backend == old(self).res.backend,
            final(self).follows(*old(self)),
            fill_now_outcome::<H>(
                old(self).res@,
                old(self).contexts@,
                old(self).data(),
                chunk@,
                awaited,
                r,
                final(self).res@,
                final(self).data(),
            ),
    {
        reveal(fill_now_outcome);
        let ghost chunks0 = self.chunks@;
        let p: usize = chunk.as_ptr();
        let d = self.native_begin(chunk);
        let ghost begun = *self;
        proof {
            self.lemma_silent(*old(self));
        }
        if !d.ok {
            return false;
        }
        let count: u32 = d.num_sectors * 512;
        let answer = if awaited {
            self.ask_read_awaited(d.handle, d.byte_offset, count)
        } else {
            let (ok, data) = self.ask_read(d.handle, d.byte_offset, count);
            Awaited::Read(ok, data)
        };
        let (ok, data): (bool, Vec<u8>) = match answer {
            Awaited::Read(ok, data) => (ok, data),
            Awaited::Later(priority) => {
                proof {
                    begun.lemma_follows(*old(self), *self);
                }
                let slot: u32 = self.res.slot_of(chunk);
                self.res.loader_enqueue(slot, priority);
                return false;
            },
        };
        let ghost asked = *self;
        let read_ok = ok && data.len() as u64 >= count as u64;
        match self.chunks.take(p) {
            Some(c) => {
                let StoredChunk { header, bytes } = c;
                let mut bytes = bytes;
                let n: usize = bytes.len();
                write_over(&mut bytes, 0, &data, n);
                self.chunks.put(p, StoredChunk { header, bytes });
            },
            None => {},
        }
        let ghost mid = self.chunks@;
        proof {
            assert(mid =~= chunks0.insert(p, mid[p]));
            assert(read_into(chunks0, p, data@, mid));
        }
        let filled = self.native_finish(chunk, read_ok);
        proof {
            begun.lemma_follows(*old(self), asked);
            self.lemma_silent(asked);
            asked.lemma_follows(*old(self), *self);
            assert(fill_outcome::<H>(
                old(self).res@,
                old(self).contexts@,
                old(self).data().chunks,
                p,
                read_ok,
                data@,
                filled,
                self.res@,
                self.data().chunks,
            ));
            assert(self.data().asked == old(self).data().asked.push(
                read_event(awaited, d, ok, data@),
            ));
            assert(fill_now_outcome::<H>(
                old(self).res@,
                old(self).contexts@,
                old(self).data(),
                p,
                awaited,
                filled,
                self.res@,
                self.data(),
            ));
        }
        filled
    }

    /// Fills `chunk` now, with a read that is made at once.
    pub fn fill_now(&mut self, chunk: Chunk) -> (r: bool)
        requires
            old(self).wf(),
        ensures
            final(self).wf(),
            final(self).contexts == old(self).contexts,
            final(self).res.reclaim == old(self).res.reclaim,
            final(self).res.trace() == old(self).res.trace(),
            final(self).res.backend == old(self).res.backend,
            final(self).follows(*old(self)),
            fill_now_outcome::<H>(
                old(self).res@,
                old(self).contexts@,
                old(self).data(),
                chunk@,
                false,
                r,
                final(self).res@,
                final(self).data(),
            ),
    {
        self.fill_with(chunk, false)
    }

    /// Puts a neighbour back into the store after a stitch.
    fn put_neighbour(
        &mut self,
        q: usize,
        header: Option<StreamedChunk>,
        view: Option<NeighbourView>,
    )
        requires
            header is Some <==> view is Some,
        ensures
            final(self).res == old(self).res,
            final(self).contexts == old(self).contexts,
            final(self).host == old(self).host,
            final(self).history == old(self).history,
            match view {
                Some(w) => {
                    &&& final(self).chunks@ == old(self).chunks@.insert(q, final(self).chunks@[q])
                    &&& final(self).chunks@[q].bytes@ == w.payload@
                    &&& final(self).chunks@[q].header == header->0.with_state(
                        DelugeChunkConvertState {
                            first_three_bytes: w.unconverted_head,
                            start_converted: w.start_converted,
                            end_converted: w.end_converted,
                        },
                    )
                },
                None => final(self).chunks@ == old(self).chunks@,
            },
    {
        match (header, view) {
            (Some(h), Some(w)) => {
                let state = DelugeChunkConvertState {
                    first_three_bytes: w.unconverted_head,
                    start_converted: w.start_converted,
                    end_converted: w.end_converted,
                };
                let header = with_convert_state(h, state);
                self.chunks.put(q, StoredChunk { header, bytes: w.payload });
                assert(self.chunks@ =~= old(self).chunks@.insert(q, self.chunks@[q]));
            },
            _ => {},
        }
    }
}

/// The address of a leased chunk, or 0.
fn leased_at(lease: &Option<Lease>) -> (r: usize)
    ensures
        r == lease_addr(*lease),
{
    match lease {
        Some(l) => l.chunk().as_ptr(),
        None => 0,
    }
}

/// The header with that conversion state.
fn with_convert_state(h: StreamedChunk, s: DelugeChunkConvertState) -> (r: StreamedChunk)
    ensures
        r == h.with_state(s),
{
    StreamedChunk {
        first_three_bytes: s.first_three_bytes,
        extra_bytes_start_converted: s.start_converted,
        extra_bytes_end_converted: s.end_converted,
        ..h
    }
}

/// A chunk's header, and the chunk as its neighbour's stitch sees it.
fn split(c: Option<StoredChunk>) -> (r: (Option<StreamedChunk>, Option<NeighbourView>))
    ensures
        match c {
            Some(c) => r.0 == Some(c.header) && r.1 == Some(as_neighbour(c)),
            None => r.0 is None && r.1 is None,
        },
{
    match c {
        Some(c) => {
            let StoredChunk { header, bytes } = c;
            (
                Some(header),
                Some(
                    NeighbourView {
                        payload: bytes,
                        unconverted_head: header.first_three_bytes,
                        start_converted: header.extra_bytes_start_converted,
                        end_converted: header.extra_bytes_end_converted,
                    },
                ),
            )
        },
        None => (None, None),
    }
}

} // verus!
