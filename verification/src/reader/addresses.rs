//! Where a window's frames are in memory.
use crate::fill::chunk::{payload_address, payload_offset, StoredChunk};
use crate::fill::context::FillContext;
use crate::fill::fill_logic::{
    finished, next_stitched, prev_stitched, ConvertState, Converted, FillGeometry, NeighbourView,
    SampleConvert, Stitched,
};
use crate::fill::native::{
    after_prev, chunks_after_finish, deferred, fill_descriptor, fill_geometry, fill_now_outcome,
    fill_outcome, finish_outcome, neighbour_stored, next_leased, next_view, prev_leased, prev_view,
    read_into, reserved_for, resolved, StreamView,
};
use crate::reader::sample_reader::{
    acquire_fill_outcome, asked_active, filled_or_released, frame_offset, frame_pos, holds_cluster,
    lemma_plan, pin_step, pinned_anew, serve_step, served_window, visited, window_of,
    window_outcome, window_plan, ReaderView, Window, WindowPlan,
};
use crate::resource::model::Model;
use vstd::prelude::*;

verus! {

/// Each chunk's header has the address of the chunk's own payload.
pub open spec fn addressed(chunks: Map<usize, StoredChunk>) -> bool {
    forall|p: usize| #[trigger]
        chunks.dom().contains(p) ==> chunks[p].header.payload == payload_address(p)
}

/// A chunk at `p` whose cluster has `cluster_size` bytes does not reach past the last address.
pub open spec fn in_memory(p: usize, cluster_size: u32) -> bool {
    p + payload_offset() + cluster_size <= usize::MAX
}

/// Ending a fill moves no chunk.
proof fn lemma_finish_addressed<C: SampleConvert>(
    old_chunks: Map<usize, StoredChunk>,
    geo: FillGeometry,
    p: usize,
    index: u32,
    pq: usize,
    nq: usize,
    prev: Option<NeighbourView>,
    next: Option<NeighbourView>,
    new_chunks: Map<usize, StoredChunk>,
)
    requires
        addressed(old_chunks),
        chunks_after_finish::<C>(old_chunks, geo, p, index, pq, nq, prev, next, new_chunks),
    ensures
        addressed(new_chunks),
{
    reveal(chunks_after_finish);
    let (c, s, st, v, w) = choose|
        c: Converted,
        s: Stitched,
        st: ConvertState,
        v: Option<NeighbourView>,
        w: Option<NeighbourView>,
    |
        {
            &&& #[trigger] finished(old_chunks[p].bytes@, geo, c, s, new_chunks[p].bytes@, st)
            &&& #[trigger] prev_stitched(prev, geo.cluster_size as int, s.prev, v)
            &&& neighbour_stored(old_chunks, pq, v, new_chunks)
            &&& #[trigger] next_stitched(next, s.next, w)
            &&& neighbour_stored(old_chunks, nq, w, new_chunks)
            &&& new_chunks[p].header.payload == old_chunks[p].header.payload
        };
    assert forall|q: usize| #[trigger] new_chunks.dom().contains(q) implies new_chunks[
        q
    ].header.payload == payload_address(q) by {
        assert(old_chunks.dom().contains(q));
        if q != p && !(prev is Some && q == pq) && !(next is Some && q == nq) {
            assert(new_chunks[q] == old_chunks[q]);
        }
    }
}

/// A fill moves no chunk.
proof fn lemma_fill_addressed<C: SampleConvert>(
    m: Model,
    contexts: Map<u32, FillContext>,
    a: StreamView,
    p: usize,
    awaited: bool,
    r: bool,
    n: Model,
    b: StreamView,
)
    requires
        addressed(a.chunks),
        fill_now_outcome::<C>(m, contexts, a, p, awaited, r, n, b),
    ensures
        addressed(b.chunks),
{
    reveal(fill_now_outcome);
    let d = fill_descriptor(m, contexts, a.chunks, p);
    if d.ok && !deferred(a, b) {
        let (read_ok, bytes) = choose|read_ok: bool, bytes: Seq<u8>| #[trigger]
            fill_outcome::<C>(m, contexts, a.chunks, p, read_ok, bytes, r, n, b.chunks);
        let mid = choose|mid: Map<usize, StoredChunk>| #[trigger]
            read_into(a.chunks, p, bytes, mid) && finish_outcome::<C>(
                m.searched_ptr(p),
                contexts,
                mid,
                p,
                read_ok,
                r,
                n,
                b.chunks,
            );
        assert(addressed(mid)) by {
            assert forall|q: usize| #[trigger] mid.dom().contains(q) implies mid[q].header.payload
                == payload_address(q) by {
                assert(a.chunks.dom().contains(q));
            }
        }
        if r {
            lemma_ended_addressed::<C>(m.searched_ptr(p), contexts, mid, p, n, b.chunks);
        }
    }
}

proof fn lemma_ended_addressed<C: SampleConvert>(
    m: Model,
    contexts: Map<u32, FillContext>,
    chunks: Map<usize, StoredChunk>,
    p: usize,
    n: Model,
    new_chunks: Map<usize, StoredChunk>,
)
    requires
        addressed(chunks),
        finish_outcome::<C>(m, contexts, chunks, p, true, true, n, new_chunks),
    ensures
        addressed(new_chunks),
{
    let (asset, index, ctx) = resolved(m, contexts, p)->0;
    let a = m.searched_ptr(p);
    let geo = fill_geometry(ctx);
    let pq = prev_leased(a, asset, index);
    let nq = next_leased(
        after_prev(a, asset, index),
        asset,
        index,
    );
    lemma_finish_addressed::<C>(
        chunks,
        geo,
        p,
        index,
        pq,
        nq,
        prev_view(chunks, p, pq, geo.cluster_size),
        next_view(chunks, p, pq, nq, geo.cluster_size),
        new_chunks,
    );
}

/// Making a cluster resident moves no chunk.
proof fn lemma_acquire_addressed<C: SampleConvert>(
    m: Model,
    contexts: Map<u32, FillContext>,
    data: StreamView,
    asset: u32,
    index: u32,
    cluster_size: u32,
    r: usize,
    n: Model,
    new_data: StreamView,
)
    requires
        addressed(data.chunks),
        acquire_fill_outcome::<C>(
            m,
            contexts,
            data,
            asset,
            index,
            cluster_size,
            r,
            n,
            new_data,
        ),
    ensures
        addressed(new_data.chunks),
{
    reveal(acquire_fill_outcome);
    let a = m.try_acquire(asset, index);
    if m.try_acquire_result(asset, index) == 0 {
        let (p, b, mid) = choose|p: usize, b: Model, mid: StreamView|
            {
                &&& #[trigger] reserved_for(a, data, asset, index, cluster_size, p, b, mid)
                &&& if p == 0 {
                    r == 0 && n == b && new_data == mid
                } else {
                    filled_or_released::<C>(b, contexts, mid, p, r, n, new_data)
                }
            };
        assert(addressed(mid.chunks)) by {
            assert forall|q: usize| #[trigger] mid.chunks.dom().contains(q) implies mid.chunks[
                q
            ].header.payload == payload_address(q) by {
                if q != p {
                    assert(data.chunks.dom().contains(q));
                }
            }
        }
        if p != 0 {
            let (active, filled, c) = choose|active: bool, filled: bool, c: Model|
                {
                    &&& #[trigger] fill_now_outcome::<C>(
                        b,
                        contexts,
                        asked_active(mid, active),
                        p,
                        active,
                        filled,
                        c,
                        new_data,
                    )
                    &&& if filled {
                        r == p && n == c.mark_ready(p)
                    } else {
                        r == 0 && n == c.release(p)
                    }
                };
            lemma_fill_addressed::<C>(
                b,
                contexts,
                asked_active(mid, active),
                p,
                active,
                filled,
                c,
                new_data,
            );
        }
    }
}

/// A window has frames exactly if it has an address, in memory whose chunks do not reach past
/// the last address. The address is that of the first frame in the chunk's payload. No chunk
/// is moved.
pub proof fn windows_point_at_their_frames<C: SampleConvert>(
    v: ReaderView,
    m: Model,
    contexts: Map<u32, FillContext>,
    data: StreamView,
    r: Window,
    w: ReaderView,
    n: Model,
    new_data: StreamView,
)
    requires
        addressed(data.chunks),
        window_outcome::<C>(v, m, contexts, data, r, w, n, new_data),
        r.frame_count > 0 ==> in_memory(r.chunk, v.geometry.cluster_size_bytes),
    ensures
        addressed(new_data.chunks),
        r.frame_count == 0 <==> r.frames == 0,
        r.frame_count > 0 ==> r.frames == r.chunk + payload_offset() + r.byte_offset,
{
    reveal(window_outcome);
    match window_plan(v.geometry, v.current_frame, v.direction) {
        WindowPlan::Serve { cluster, byte_offset, frame_count, needs_next } => {
            let (q, b, mid, next) = choose|q: usize, b: Model, mid: StreamView, next: bool|
                {
                    &&& #[trigger] pin_step::<C>(v, m, contexts, data, cluster, q, b, mid)
                    &&& #[trigger] serve_step::<C>(
                        v,
                        b,
                        contexts,
                        mid,
                        q,
                        needs_next,
                        cluster,
                        next,
                        w.held,
                        n,
                        new_data,
                    )
                    &&& r == served_window(
                        v,
                        q,
                        byte_offset,
                        frame_count,
                        needs_next,
                        next,
                        new_data.chunks,
                    )
                };
            let cs = v.geometry.cluster_size_bytes;
            if !holds_cluster(v, cluster) {
                reveal(pinned_anew);
                let c = choose|c: Model| #[trigger]
                    acquire_fill_outcome::<C>(m, contexts, data, v.asset, cluster, cs, q, c, mid);
                lemma_acquire_addressed::<C>(m, contexts, data, v.asset, cluster, cs, q, c, mid);
            }
            if q != 0 && needs_next {
                reveal(visited);
                let (p, c) = choose|p: usize, c: Model| #[trigger]
                    acquire_fill_outcome::<C>(
                        b,
                        contexts,
                        mid,
                        v.asset,
                        (cluster + 1) as u32,
                        cs,
                        p,
                        c,
                        new_data,
                    );
                lemma_acquire_addressed::<C>(
                    b,
                    contexts,
                    mid,
                    v.asset,
                    (cluster + 1) as u32,
                    cs,
                    p,
                    c,
                    new_data,
                );
            }
            lemma_plan(v.geometry, v.current_frame, v.direction);
            vstd::arithmetic::div_mod::lemma_mod_bound(
                frame_pos(v.current_frame, v.geometry),
                cs as int,
            );
            assert(byte_offset == frame_offset(v.current_frame, v.geometry));
            match window_of(
                v.geometry,
                byte_offset,
                frame_count,
                needs_next,
                next,
                v.direction,
            ) {
                Some((offset, count)) => {
                    assert(count >= 1);
                    assert(offset <= byte_offset);
                },
                None => {},
            }
        },
        _ => {},
    }
}

} // verus!
