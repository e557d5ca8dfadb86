//! What a fill is for: which bytes are read, what the conversion and the stitch are given, and
//! what becomes of the chunk and its neighbours.
use crate::fill::chunk::{StoredChunk, StreamedChunk};
use crate::fill::context::FillContext;
use crate::fill::fill_logic::{
    converts, finished, format_of, gave, next_stitched, overlay, prev_stitched, stitches,
    ConvertCall, ConvertState, Converted, FillGeometry, NeighbourView, RawDataFormat, SampleConvert,
    StitchCall, Stitched,
};
use crate::fill::native::{
    after_prev, chunk_state, chunks_after_finish, constructed, deferred, fill_descriptor,
    fill_geometry, fill_now_outcome, fill_outcome, finish_outcome, logic_state, neighbour_stored,
    next_leased, next_view, prev_leased, prev_view, read_event, read_into, resolved, whole_read,
    StreamView, StreamingFillDescriptor,
};
use crate::resource::effects::{
    backs_first, chunks_are_found_by_address, chunks_are_found_by_key, queueing_by_address, waits,
};
use crate::resource::leases::{lemma_same_resident, same_places};
use crate::resource::model::{lemma_resident, unique_addresses, Model};
use vstd::prelude::*;

verus! {

// ---- formats and bytes ----

/// `f` is the format that the registered byte `v` stands for.
pub open spec fn stands_for(v: u8, f: RawDataFormat) -> bool {
    match f {
        RawDataFormat::Float => v == 1,
        RawDataFormat::Unsigned8 => v == 2,
        RawDataFormat::EndiannessWrong16 => v == 3,
        RawDataFormat::EndiannessWrong24 => v == 4,
        RawDataFormat::EndiannessWrong32 => v == 5,
        RawDataFormat::Native => v == 0 || v > 5,
    }
}

/// Each registered byte stands for one format.
pub proof fn bytes_stand_for_formats(v: u8, f: RawDataFormat)
    ensures
        format_of(v) == f <==> stands_for(v, f),
{
}

/// Bytes that are written over others replace those at their place, as many as there are and as
/// are to be written, and no others.
pub proof fn writing_over_replaces_bytes(buf: Seq<u8>, at: int, data: Seq<u8>, n: int, i: int)
    requires
        0 <= i < buf.len(),
    ensures
        overlay(buf, at, data, n).len() == buf.len(),
        at <= i && i < at + n && i < at + data.len() ==> overlay(buf, at, data, n)[i] == data[i
            - at],
        i < at || at + n <= i || at + data.len() <= i ==> overlay(buf, at, data, n)[i] == buf[i],
{
}

// ---- what is read ----

/// The chunk at `p` is known: it is in a slot, its asset has a context, and it was constructed.
pub open spec fn known(
    m: Model,
    contexts: Map<u32, FillContext>,
    chunks: Map<usize, StoredChunk>,
    p: usize,
    i: int,
) -> bool {
    &&& backs_first(m, p, i)
    &&& contexts.dom().contains(m.chunks[i].asset)
    &&& chunks.dom().contains(p)
}

/// A fill reads the file of the chunk's asset, from where the chunk's cluster starts. It reads
/// nothing of a chunk that is not in a slot, whose asset has no context, or that was not
/// constructed.
pub proof fn fills_read_the_chunks_own_cluster(
    m: Model,
    contexts: Map<u32, FillContext>,
    chunks: Map<usize, StoredChunk>,
    p: usize,
    i: int,
)
    ensures
        known(m, contexts, chunks, p, i) && fill_descriptor(m, contexts, chunks, p).ok ==> {
            let ctx = contexts[m.chunks[i].asset];
            let d = fill_descriptor(m, contexts, chunks, p);
            &&& ctx.cluster_size_magnitude < 32
            &&& d.handle == ctx.efatfs_handle
            &&& d.byte_offset == m.chunks[i].index << ctx.cluster_size_magnitude
            &&& d.dest == chunks[p].header.payload
        },
        fill_descriptor(m, contexts, chunks, p).ok ==> exists|k: int| #[trigger]
            known(m, contexts, chunks, p, k),
        known(m, contexts, chunks, p, i) && contexts[m.chunks[i].asset].cluster_size_magnitude < 32
            && (contexts[m.chunks[i].asset].audio_data_length_bytes == 0
            || contexts[m.chunks[i].asset].audio_data_length_bytes == 0x8FFF_FFFF_FFFF_FFFF)
            ==> fill_descriptor(m, contexts, chunks, p).ok && fill_descriptor(
            m,
            contexts,
            chunks,
            p,
        ).num_sectors == contexts[m.chunks[i].asset].cluster_size / 512,
{
    chunks_are_found_by_address(m, p, i);
    if fill_descriptor(m, contexts, chunks, p).ok {
        let k = m.slot_at(p)->0;
        chunks_are_found_by_address(m, p, k);
        assert(known(m, contexts, chunks, p, k));
    }
}

/// What was read is written from the start of the chunk's payload on; the header and every
/// other chunk stay.
pub proof fn reads_land_in_the_chunk(
    chunks: Map<usize, StoredChunk>,
    p: usize,
    data: Seq<u8>,
    after: Map<usize, StoredChunk>,
    q: usize,
    j: int,
)
    requires
        read_into(chunks, p, data, after),
        chunks.dom().contains(p),
        0 <= j < chunks[p].bytes@.len(),
    ensures
        after[p].bytes@.len() == chunks[p].bytes@.len(),
        j < data.len() ==> after[p].bytes@[j] == data[j],
        j >= data.len() ==> after[p].bytes@[j] == chunks[p].bytes@[j],
        after[p].header == chunks[p].header,
        q != p && chunks.dom().contains(q) ==> after.dom().contains(q) && after[q] == chunks[q],
{
}

/// A read counts only if the card says that it went well and gave every byte of every sector.
pub proof fn short_reads_do_not_count(d: StreamingFillDescriptor, ok: bool, data: Seq<u8>)
    ensures
        whole_read(d, ok, data) ==> ok && data.len() >= 512 * d.num_sectors,
        ok && data.len() >= 512 * d.num_sectors ==> whole_read(d, ok, data),
{
}

/// A constructed chunk has room for its cluster and seven bytes more, all 0, and nothing of it is
/// loaded, unloadable or converted.
pub proof fn constructed_chunks_are_blank(
    chunks: Map<usize, StoredChunk>,
    p: usize,
    index: u32,
    cluster_size: u32,
    after: Map<usize, StoredChunk>,
    q: usize,
)
    requires
        constructed(chunks, p, index, cluster_size, after),
        cluster_size + 7 <= usize::MAX,
    ensures
        after.dom().contains(p),
        after[p].bytes@.len() == cluster_size + 7,
        forall|j: int| 0 <= j < cluster_size + 7 ==> #[trigger] after[p].bytes@[j] == 0,
        after[p].header.cluster_index == index,
        !after[p].header.loaded,
        !after[p].header.unloadable,
        !after[p].header.extra_bytes_start_converted,
        !after[p].header.extra_bytes_end_converted,
        q != p && chunks.dom().contains(q) ==> after.dom().contains(q) && after[q] == chunks[q],
{
}

// ---- converting and stitching ----

/// What a fill asks of the conversion and of the stitch, and the answers.
pub struct Asked {
    pub convert: ConvertCall,
    pub converted: Converted,
    pub stitch: StitchCall,
    pub stitched: Stitched,
}

/// A fill that ends well has the cluster's own bytes converted, without the slack behind them,
/// in the format that was registered for the asset, with the asset's own geometry; and then it
/// has the chunk, so converted and with its slack, stitched in the same format. What the two
/// give back is what the chunk then holds, and it is loaded.
pub proof fn fills_convert_and_stitch_as_registered<C: SampleConvert>(
    m: Model,
    contexts: Map<u32, FillContext>,
    chunks: Map<usize, StoredChunk>,
    p: usize,
    n: Model,
    after: Map<usize, StoredChunk>,
    i: int,
) -> (r: Asked)
    requires
        finish_outcome::<C>(m, contexts, chunks, p, true, true, n, after),
        backs_first(m, p, i),
    ensures
        call_ensures(C::convert_cluster, (r.convert,), r.converted),
        call_ensures(C::stitch_boundaries, (r.stitch,), r.stitched),
        contexts.dom().contains(m.chunks[i].asset),
        ({
            let ctx = contexts[m.chunks[i].asset];
            let index = m.chunks[i].index;
            let cs = ctx.cluster_size as int;
            let bytes = chunks[p].bytes@;
            let c = r.convert;
            &&& chunks.dom().contains(p)
            &&& bytes.len() >= cs + 7
            &&& c.cluster@.len() == cs
            &&& forall|j: int| 0 <= j < cs ==> #[trigger] c.cluster@[j] == bytes[j]
            &&& c.index == index as i32
            &&& stands_for(ctx.raw_data_format, c.format)
            &&& c.geometry.audio_data_start_pos_bytes == ctx.audio_data_start_pos_bytes
            &&& c.geometry.audio_data_length_bytes == ctx.audio_data_length_bytes
            &&& c.geometry.first_cluster_index_with_no_audio_data
                == ctx.first_cluster_index_with_no_audio_data
            &&& c.cluster_size == ctx.cluster_size
            &&& c.cluster_size_magnitude == ctx.cluster_size_magnitude
            &&& c.first_three_bytes == chunks[p].header.first_three_bytes
        }),
        ({
            let ctx = contexts[m.chunks[i].asset];
            let cs = ctx.cluster_size as int;
            let bytes = chunks[p].bytes@;
            let given = r.converted.cluster@;
            let s = r.stitch;
            &&& s.span@.len() == bytes.len()
            &&& forall|j: int|
                0 <= j < bytes.len() ==> #[trigger] s.span@[j] == (if j < cs && j < given.len() {
                    given[j]
                } else {
                    bytes[j]
                })
            &&& s.index == m.chunks[i].index as i32
            &&& stands_for(ctx.raw_data_format, s.format)
            &&& s.audio_data_start_pos_bytes == ctx.audio_data_start_pos_bytes
            &&& s.cluster_size == ctx.cluster_size
            &&& s.start_converted == chunks[p].header.extra_bytes_start_converted
            &&& s.end_converted == chunks[p].header.extra_bytes_end_converted
        }),
        after.dom().contains(p),
        after[p].bytes@.len() == chunks[p].bytes@.len(),
        forall|j: int|
            0 <= j < chunks[p].bytes@.len() ==> #[trigger] after[p].bytes@[j] == (if j
                < r.stitched.span@.len() {
                r.stitched.span@[j]
            } else {
                r.stitch.span@[j]
            }),
        after[p].header.loaded,
        after[p].header.first_three_bytes == r.converted.first_three_bytes,
        after[p].header.extra_bytes_start_converted == r.stitched.start_converted,
        after[p].header.extra_bytes_end_converted == r.stitched.end_converted,
        after[p].header.payload == chunks[p].header.payload,
        after[p].header.cluster_index == chunks[p].header.cluster_index,
        after[p].header.unloadable == chunks[p].header.unloadable,
{
    chunks_are_found_by_address(m, p, i);
    let (asset, index, ctx) = resolved(m, contexts, p)->0;
    let a = m.searched_ptr(p);
    let geo = fill_geometry(ctx);
    let pq = prev_leased(a, asset, index);
    let nq = next_leased(after_prev(a, asset, index), asset, index);
    let pv = prev_view(chunks, p, pq, geo.cluster_size);
    let nv = next_view(chunks, p, pq, nq, geo.cluster_size);
    assert(chunks_after_finish::<C>(chunks, geo, p, index, pq, nq, pv, nv, after));
    lemma_calls::<C>(chunks, geo, p, index, pq, nq, pv, nv, after, ctx.raw_data_format)
}

proof fn lemma_calls<C: SampleConvert>(
    chunks: Map<usize, StoredChunk>,
    geo: FillGeometry,
    p: usize,
    index: u32,
    pq: usize,
    nq: usize,
    prev: Option<NeighbourView>,
    next: Option<NeighbourView>,
    after: Map<usize, StoredChunk>,
    v: u8,
) -> (r: Asked)
    requires
        chunks_after_finish::<C>(chunks, geo, p, index, pq, nq, prev, next, after),
        chunks.dom().contains(p),
        chunks[p].bytes@.len() >= geo.cluster_size + 7,
        v == geo.raw_data_format,
    ensures
        call_ensures(C::convert_cluster, (r.convert,), r.converted),
        call_ensures(C::stitch_boundaries, (r.stitch,), r.stitched),
        r.convert.cluster@ == chunks[p].bytes@.subrange(0, geo.cluster_size as int),
        r.convert.index == index as i32,
        stands_for(v, r.convert.format),
        r.convert.geometry.audio_data_start_pos_bytes == geo.audio_data_start_pos_bytes,
        r.convert.geometry.audio_data_length_bytes == geo.audio_data_length_bytes,
        r.convert.geometry.first_cluster_index_with_no_audio_data
            == geo.first_cluster_index_with_no_audio_data,
        r.convert.cluster_size == geo.cluster_size,
        r.convert.cluster_size_magnitude == geo.cluster_size_magnitude,
        r.convert.first_three_bytes == chunks[p].header.first_three_bytes,
        r.stitch.span@.len() == chunks[p].bytes@.len(),
        forall|j: int|
            0 <= j < chunks[p].bytes@.len() ==> #[trigger] r.stitch.span@[j] == (if j
                < geo.cluster_size && j < r.converted.cluster@.len() {
                r.converted.cluster@[j]
            } else {
                chunks[p].bytes@[j]
            }),
        r.stitch.index == index as i32,
        stands_for(v, r.stitch.format),
        r.stitch.audio_data_start_pos_bytes == geo.audio_data_start_pos_bytes,
        r.stitch.cluster_size == geo.cluster_size,
        r.stitch.start_converted == chunks[p].header.extra_bytes_start_converted,
        r.stitch.end_converted == chunks[p].header.extra_bytes_end_converted,
        after.dom().contains(p),
        after[p].bytes@.len() == chunks[p].bytes@.len(),
        forall|j: int|
            0 <= j < chunks[p].bytes@.len() ==> #[trigger] after[p].bytes@[j] == (if j
                < r.stitched.span@.len() {
                r.stitched.span@[j]
            } else {
                r.stitch.span@[j]
            }),
        after[p].header.loaded,
        after[p].header.first_three_bytes == r.converted.first_three_bytes,
        after[p].header.extra_bytes_start_converted == r.stitched.start_converted,
        after[p].header.extra_bytes_end_converted == r.stitched.end_converted,
        after[p].header.payload == chunks[p].header.payload,
        after[p].header.cluster_index == chunks[p].header.cluster_index,
        after[p].header.unloadable == chunks[p].header.unloadable,
        seen_as(r.stitch, prev, next, geo.cluster_size as int),
        changed_as(
            chunks,
            after,
            pq,
            prev,
            r.stitched.prev,
            nq,
            next,
            r.stitched.next,
            geo.cluster_size as int,
        ),
{
    reveal(chunks_after_finish);
    let (c, s, st, v1, w1) = choose|
        c: Converted,
        s: Stitched,
        st: ConvertState,
        v: Option<NeighbourView>,
        w: Option<NeighbourView>,
    |
        {
            &&& #[trigger] finished(chunks[p].bytes@, geo, c, s, after[p].bytes@, st)
            &&& gave::<C>(
                chunks[p].bytes@,
                index,
                geo,
                logic_state(chunks[p].header.state()),
                prev,
                next,
                c,
                s,
            )
            &&& after[p].header == (StreamedChunk {
                loaded: true,
                ..chunks[p].header.with_state(chunk_state(st))
            })
            &&& #[trigger] prev_stitched(prev, geo.cluster_size as int, s.prev, v)
            &&& neighbour_stored(chunks, pq, v, after)
            &&& #[trigger] next_stitched(next, s.next, w)
            &&& neighbour_stored(chunks, nq, w, after)
        };
    let state = logic_state(chunks[p].header.state());
    let bytes = chunks[p].bytes@;
    let convert = choose|call: ConvertCall|
        converts(bytes, index, geo, state.first_three_bytes, call) && #[trigger] call_ensures(
            C::convert_cluster,
            (call,),
            c,
        );
    let converted = overlay(bytes, 0, c.cluster@, geo.cluster_size as int);
    let stitch = choose|call: StitchCall|
        stitches(
            converted,
            index,
            geo,
            ConvertState { first_three_bytes: c.first_three_bytes, ..state },
            prev,
            next,
            call,
        ) && #[trigger] call_ensures(C::stitch_boundaries, (call,), s);
    bytes_stand_for_formats(v, convert.format);
    bytes_stand_for_formats(v, stitch.format);
    Asked { convert, converted: c, stitch, stitched: s }
}

/// What the stitch `s` is given of the neighbours: of the previous one its last four bytes and
/// the slack behind them, of the next one its first seven bytes, each with what its conversion
/// has done; and nothing of one that takes no part.
pub open spec fn seen_as(
    s: StitchCall,
    prev: Option<NeighbourView>,
    next: Option<NeighbourView>,
    cs: int,
) -> bool {
    &&& s.prev is Some <==> prev is Some
    &&& s.next is Some <==> next is Some
    &&& prev is Some ==> {
        &&& s.prev->0.tail@ == prev->0.payload@.subrange(cs - 4, cs + 7)
        &&& s.prev->0.end_boundary_converted == prev->0.end_converted
    }
    &&& next is Some ==> {
        &&& s.next->0.head@ == next->0.payload@.subrange(0, 7)
        &&& s.next->0.unconverted_head == next->0.unconverted_head
        &&& s.next->0.start_boundary_converted == next->0.start_converted
    }
}

/// What becomes of the neighbours: of the previous one only the eleven bytes around its
/// cluster's end and its end mark can change, of the next one only its first seven bytes and
/// its start mark, and to what the stitch gave.
pub open spec fn changed_as(
    chunks: Map<usize, StoredChunk>,
    after: Map<usize, StoredChunk>,
    pq: usize,
    prev: Option<NeighbourView>,
    tail: Option<(Vec<u8>, bool)>,
    nq: usize,
    next: Option<NeighbourView>,
    head: Option<(Vec<u8>, bool)>,
    cs: int,
) -> bool {
    &&& prev is Some ==> {
        let b = prev->0.payload@;
        let d = after[pq].bytes@;
        &&& after.dom().contains(pq)
        &&& d.len() == b.len()
        &&& forall|j: int|
            0 <= j < b.len() ==> #[trigger] d[j] == (if tail is Some && cs - 4 <= j < cs + 7 && j
                - (cs - 4) < (tail->0).0@.len() {
                (tail->0).0@[j - (cs - 4)]
            } else {
                b[j]
            })
        &&& after[pq].header == (StreamedChunk {
            first_three_bytes: prev->0.unconverted_head,
            extra_bytes_start_converted: prev->0.start_converted,
            extra_bytes_end_converted: if tail is Some {
                (tail->0).1
            } else {
                prev->0.end_converted
            },
            ..chunks[pq].header
        })
    }
    &&& next is Some ==> {
        let b = next->0.payload@;
        let d = after[nq].bytes@;
        &&& after.dom().contains(nq)
        &&& d.len() == b.len()
        &&& forall|j: int|
            0 <= j < b.len() ==> #[trigger] d[j] == (if head is Some && j < 7 && j < (
            head->0).0@.len() {
                (head->0).0@[j]
            } else {
                b[j]
            })
        &&& after[nq].header == (StreamedChunk {
            first_three_bytes: next->0.unconverted_head,
            extra_bytes_start_converted: if head is Some {
                (head->0).1
            } else {
                next->0.start_converted
            },
            extra_bytes_end_converted: next->0.end_converted,
            ..chunks[nq].header
        })
    }
}

/// The chunk in slot `k` is that of cluster `index` of `asset`, ready, and long enough to take
/// part in a stitch of another chunk than `p`.
pub open spec fn takes_part(
    m: Model,
    chunks: Map<usize, StoredChunk>,
    p: usize,
    k: int,
    asset: u32,
    index: int,
    cs: int,
) -> bool {
    &&& 0 <= k < m.chunks.len()
    &&& m.chunks[k].backing != 0
    &&& m.chunks[k].backing != p
    &&& m.chunks[k].asset == asset
    &&& m.chunks[k].index == index
    &&& m.chunks[k].ready
    &&& chunks.dom().contains(m.chunks[k].backing)
    &&& cs >= 4
    &&& chunks[m.chunks[k].backing].bytes@.len() >= cs + 7
}

/// A chunk is stitched with the cluster before it and the cluster after it, each if it is
/// resident and ready. The stitch is given their bytes at the seam, and what it gives back is
/// written there, and nowhere else.
pub proof fn fills_stitch_with_their_neighbours<C: SampleConvert>(
    m: Model,
    contexts: Map<u32, FillContext>,
    chunks: Map<usize, StoredChunk>,
    p: usize,
    n: Model,
    after: Map<usize, StoredChunk>,
    i: int,
    k: int,
    l: int,
) -> (r: Asked)
    requires
        m.consistent(),
        m.unique_keys(),
        unique_addresses(m),
        finish_outcome::<C>(m, contexts, chunks, p, true, true, n, after),
        backs_first(m, p, i),
        m.chunks[i].asset != u32::MAX,
    ensures
        call_ensures(C::stitch_boundaries, (r.stitch,), r.stitched),
        stands_for(contexts[m.chunks[i].asset].raw_data_format, r.stitch.format),
        ({
            let cs = contexts[m.chunks[i].asset].cluster_size as int;
            let q = m.chunks[k].backing;
            takes_part(m, chunks, p, k, m.chunks[i].asset, m.chunks[i].index - 1, cs) ==> {
                let b = chunks[q].bytes@;
                let d = after[q].bytes@;
                let tail = r.stitched.prev;
                &&& r.stitch.prev is Some
                &&& r.stitch.prev->0.tail@ == b.subrange(cs - 4, cs + 7)
                &&& r.stitch.prev->0.end_boundary_converted
                    == chunks[q].header.extra_bytes_end_converted
                &&& d.len() == b.len()
                &&& forall|j: int|
                    0 <= j < b.len() ==> #[trigger] d[j] == (if tail is Some && cs - 4 <= j < cs + 7
                        && j - (cs - 4) < (tail->0).0@.len() {
                        (tail->0).0@[j - (cs - 4)]
                    } else {
                        b[j]
                    })
                &&& tail is Some ==> after[q].header.extra_bytes_end_converted == (tail->0).1
                &&& after[q].header.extra_bytes_start_converted
                    == chunks[q].header.extra_bytes_start_converted
                &&& after[q].header.loaded == chunks[q].header.loaded
            }
        }),
        ({
            let cs = contexts[m.chunks[i].asset].cluster_size as int;
            let q = m.chunks[l].backing;
            takes_part(m, chunks, p, l, m.chunks[i].asset, m.chunks[i].index + 1, cs) ==> {
                let b = chunks[q].bytes@;
                let d = after[q].bytes@;
                let head = r.stitched.next;
                &&& r.stitch.next is Some
                &&& r.stitch.next->0.head@ == b.subrange(0, 7)
                &&& r.stitch.next->0.unconverted_head == chunks[q].header.first_three_bytes
                &&& r.stitch.next->0.start_boundary_converted
                    == chunks[q].header.extra_bytes_start_converted
                &&& d.len() == b.len()
                &&& forall|j: int|
                    0 <= j < b.len() ==> #[trigger] d[j] == (if head is Some && j < 7 && j < (
                    head->0).0@.len() {
                        (head->0).0@[j]
                    } else {
                        b[j]
                    })
                &&& head is Some ==> after[q].header.extra_bytes_start_converted == (head->0).1
                &&& after[q].header.extra_bytes_end_converted
                    == chunks[q].header.extra_bytes_end_converted
                &&& after[q].header.loaded == chunks[q].header.loaded
            }
        }),
        r.stitch.prev is Some ==> exists|x: int| #[trigger]
            takes_part(
                m,
                chunks,
                p,
                x,
                m.chunks[i].asset,
                m.chunks[i].index - 1,
                contexts[m.chunks[i].asset].cluster_size as int,
            ),
        r.stitch.next is Some ==> exists|x: int| #[trigger]
            takes_part(
                m,
                chunks,
                p,
                x,
                m.chunks[i].asset,
                m.chunks[i].index + 1,
                contexts[m.chunks[i].asset].cluster_size as int,
            ),
{
    chunks_are_found_by_address(m, p, i);
    let (asset, index, ctx) = resolved(m, contexts, p)->0;
    let a = m.searched_ptr(p);
    let b = after_prev(a, asset, index);
    let geo = fill_geometry(ctx);
    let cs = ctx.cluster_size as int;
    let pq = prev_leased(a, asset, index);
    let nq = next_leased(b, asset, index);
    let pv = prev_view(chunks, p, pq, geo.cluster_size);
    let nv = next_view(chunks, p, pq, nq, geo.cluster_size);
    assert(chunks_after_finish::<C>(chunks, geo, p, index, pq, nq, pv, nv, after));
    lemma_prev_found(m, p, asset, index);
    lemma_next_found(m, p, asset, index);
    if takes_part(m, chunks, p, k, asset, index - 1, cs) {
        chunks_are_found_by_key(m, asset, (index - 1) as u32, k);
    }
    if takes_part(m, chunks, p, l, asset, index + 1, cs) {
        chunks_are_found_by_key(m, asset, (index + 1) as u32, l);
    }
    if pv is Some {
        let x = m.resident(asset, (index - 1) as u32)->0;
        lemma_resident(m, asset, (index - 1) as u32);
        assert(takes_part(m, chunks, p, x, asset, index - 1, cs));
    }
    if nv is Some {
        let x = m.resident(asset, (index + 1) as u32)->0;
        lemma_resident(m, asset, (index + 1) as u32);
        assert(takes_part(m, chunks, p, x, asset, index + 1, cs));
    }
    lemma_calls::<C>(chunks, geo, p, index, pq, nq, pv, nv, after, ctx.raw_data_format)
}

/// The neighbour before is the ready chunk of the cluster before.
proof fn lemma_prev_found(m: Model, p: usize, asset: u32, index: u32)
    requires
        m.consistent(),
    ensures
        prev_leased(m.searched_ptr(p), asset, index) == (if index > 0 {
            m.try_acquire_result(asset, (index - 1) as u32)
        } else {
            0
        }),
{
    reveal(prev_leased);
    if index > 0 {
        lemma_same_resident(m, m.searched_ptr(p), asset, (index - 1) as u32);
    }
}

/// The neighbour after is the ready chunk of the cluster after.
proof fn lemma_next_found(m: Model, p: usize, asset: u32, index: u32)
    requires
        m.consistent(),
    ensures
        next_leased(after_prev(m.searched_ptr(p), asset, index), asset, index) == (if index
            < u32::MAX {
            m.try_acquire_result(asset, (index + 1) as u32)
        } else {
            0
        }),
{
    reveal(next_leased);
    reveal(after_prev);
    let a = m.searched_ptr(p);
    let b = after_prev(a, asset, index);
    if index > 0 {
        lemma_same_resident(m, a, asset, (index - 1) as u32);
        lemma_resident(m, asset, (index - 1) as u32);
    }
    assert(same_places(m, b));
    if index < u32::MAX {
        lemma_same_resident(m, b, asset, (index + 1) as u32);
        lemma_resident(m, asset, (index + 1) as u32);
    }
}

/// A fill ends well exactly if the read did, the chunk is in a slot, its asset has a context, and
/// it was constructed with room for its cluster and the slack. Its slot is ready then. A read
/// that failed changes nothing at all.
pub proof fn when_fills_end_well<C: SampleConvert>(
    m: Model,
    contexts: Map<u32, FillContext>,
    chunks: Map<usize, StoredChunk>,
    p: usize,
    read_ok: bool,
    r: bool,
    n: Model,
    after: Map<usize, StoredChunk>,
    i: int,
)
    requires
        finish_outcome::<C>(m, contexts, chunks, p, read_ok, r, n, after),
    ensures
        !read_ok ==> !r && n == m && after == chunks,
        read_ok && known(m, contexts, chunks, p, i) ==> (r <==> chunks[p].bytes@.len()
            >= contexts[m.chunks[i].asset].cluster_size + 7),
        r ==> exists|k: int| #[trigger] known(m, contexts, chunks, p, k),
        !r ==> after == chunks && n.chunks == m.chunks,
{
    chunks_are_found_by_address(m, p, i);
    if r {
        let k = m.slot_at(p)->0;
        chunks_are_found_by_address(m, p, k);
        assert(known(m, contexts, chunks, p, k));
    }
}

/// A fill asks the card at most once: for whole sectors of 512 bytes, from where the chunk's
/// cluster starts in its file. One that is put off is not done, and its chunk waits for the
/// loader at the urgency that came back; only an awaited one can be put off. One that asks
/// nothing is not done and changes no chunk.
pub proof fn fills_ask_the_card_once<C: SampleConvert>(
    m: Model,
    contexts: Map<u32, FillContext>,
    a: StreamView,
    p: usize,
    awaited: bool,
    r: bool,
    n: Model,
    b: StreamView,
    i: int,
)
    requires
        m.chunks.len() <= 0x8000_0000,
        known(m, contexts, a.chunks, p, i),
        fill_now_outcome::<C>(m, contexts, a, p, awaited, r, n, b),
        fill_descriptor(m, contexts, a.chunks, p).num_sectors <= 0x7F_FFFF,
    ensures
        b.asked == a.asked || b.asked.len() == a.asked.len() + 1 && b.asked.drop_last() == a.asked,
        b.asked == a.asked ==> !r && b.chunks == a.chunks && n.chunks == m.chunks,
        b.asked != a.asked ==> b.asked.last() is Read || b.asked.last() is Later,
        b.asked != a.asked && b.asked.last() is Read ==> {
            let d = fill_descriptor(m, contexts, a.chunks, p);
            let ctx = contexts[m.chunks[i].asset];
            let e = b.asked.last();
            &&& e->Read_awaited == awaited
            &&& e->Read_handle == ctx.efatfs_handle
            &&& e->Read_byte_offset == m.chunks[i].index << ctx.cluster_size_magnitude
            &&& e->Read_count == d.num_sectors * 512
            &&& r ==> e->ok && e->data.len() >= e->Read_count
        },
        b.asked != a.asked && b.asked.last() is Later ==> {
            let d = fill_descriptor(m, contexts, a.chunks, p);
            let ctx = contexts[m.chunks[i].asset];
            let e = b.asked.last();
            &&& awaited
            &&& !r
            &&& b.chunks == a.chunks
            &&& e->Later_handle == ctx.efatfs_handle
            &&& e->Later_byte_offset == m.chunks[i].index << ctx.cluster_size_magnitude
            &&& e->Later_count == d.num_sectors * 512
            &&& waits(n, i, e->priority)
        },
{
    reveal(fill_now_outcome);
    let d = fill_descriptor(m, contexts, a.chunks, p);
    fills_read_the_chunks_own_cluster(m, contexts, a.chunks, p, i);
    if d.ok && deferred(a, b) {
        let s = m.searched_ptr(p);
        assert(backs_first(s, p, i));
        queueing_by_address(s, p, i, b.asked.last()->priority);
        assert(b.asked.drop_last() =~= a.asked);
    } else if d.ok {
        let (read_ok, data) = choose|read_ok: bool, data: Seq<u8>|
            {
                &&& #[trigger] fill_outcome::<C>(
                    m,
                    contexts,
                    a.chunks,
                    p,
                    read_ok,
                    data,
                    r,
                    n,
                    b.chunks,
                )
                &&& b.asked == a.asked.push(read_event(awaited, d, b.asked.last()->ok, data))
                &&& read_ok == whole_read(d, b.asked.last()->ok, data)
            };
        assert(b.asked.drop_last() =~= a.asked);
        let mid = choose|mid: Map<usize, StoredChunk>| #[trigger]
            read_into(a.chunks, p, data, mid) && finish_outcome::<C>(
                m.searched_ptr(p),
                contexts,
                mid,
                p,
                read_ok,
                r,
                n,
                b.chunks,
            );
    }
}

} // verus!
