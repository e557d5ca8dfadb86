//! What holds of reading as a whole.
use crate::fill::chunk::StoredChunk;
use crate::fill::context::FillContext;
use crate::fill::fill_logic::SampleConvert;
use crate::fill::laws::{leaves_samples, native_samples_are_what_was_read};
use crate::fill::native::{
    chunks_after_finish, fill_descriptor, fill_geometry, fill_now_outcome, fill_outcome, read_event,
    reserved_for, resolved, whole_read, StreamView,
};
use crate::reader::sample_reader::{
    acquire_fill_outcome, asked_active, context_geometry, filled_or_released, frames_of,
    holds_cluster, invalidate_step, invalidated, opened_reader, pin_step, pinned_anew, read_end,
    read_outcome, read_step, read_steps, released_held, serve_step, served_window, step_frames,
    stride, window_outcome, window_plan, ReadState, ReaderView, Window, WindowPlan,
};
use crate::resource::facade::{kept_or_evicted, newly_reserved, request_outcome};
use crate::resource::leases::{lemma_same_resident, same_places};
use crate::resource::model::{lemma_resident, lemma_slot_at, unique_addresses, Model};
use vstd::prelude::*;

verus! {

/// After a reservation the chunk at its address is the one that was reserved, if no other
/// chunk had that address.
pub proof fn lemma_reserved_at(m: Model, asset: u32, index: u32, size: usize, p: usize, b: Model)
    requires
        m.consistent(),
        unique_addresses(m),
        request_outcome(m, asset, index, size, p, b),
        p != 0,
        m.resident(asset, index) is None ==> m.slot_at(p) is None,
    ensures
        b.slot_at(p) is Some,
        b.chunks[b.slot_at(p)->0].asset == asset,
        b.chunks[b.slot_at(p)->0].index == index,
{
    reveal(request_outcome);
    lemma_resident(m, asset, index);
    lemma_slot_at(m, p);
    lemma_slot_at(b, p);
    match m.resident(asset, index) {
        Some(i) => {
            assert(b.chunks[i].backing == p);
            let j = b.slot_at(p)->0;
            assert(m.chunks[j].backing == p);
        },
        None => {
            let prot = m.protection(asset);
            let i = choose|i: int|
                #[trigger] newly_reserved(m, b, i, p, asset, index, size, false, prot);
            assert(b.chunks[i].backing == p);
            let j = b.slot_at(p)->0;
            if j != i {
                assert(kept_or_evicted(m.chunks[j], b.chunks[j], prot));
                assert(m.chunks[j].backing == p);
            }
        },
    }
}

/// A cluster that is made resident by reading it holds what the card gave for its place in
/// the file, if the samples need no conversion. The host is asked how to read, and the card once,
/// for that place.
pub proof fn clusters_hold_what_the_card_gave<C: SampleConvert>(
    m: Model,
    contexts: Map<u32, FillContext>,
    data: StreamView,
    asset: u32,
    index: u32,
    cluster_size: u32,
    r: usize,
    n: Model,
    new_data: StreamView,
)
    requires
        m.consistent(),
        unique_addresses(m),
        leaves_samples::<C>(),
        acquire_fill_outcome::<C>(
            m,
            contexts,
            data,
            asset,
            index,
            cluster_size,
            r,
            n,
            new_data,
        ),
        m.try_acquire_result(asset, index) == 0,
        r != 0,
        m.resident(asset, index) is None ==> m.slot_at(r) is None,
    ensures
        contexts.dom().contains(asset),
        new_data.asked.len() == data.asked.len() + 2,
        new_data.asked[data.asked.len() as int] is AsyncActive,
        new_data.asked.last() is Read,
        new_data.asked.last()->Read_handle == contexts[asset].efatfs_handle,
        new_data.asked.last()->Read_byte_offset == fill_geometry(contexts[asset]).byte_offset(index),
        new_data.asked.last()->ok,
        new_data.asked.last()->data.len() >= new_data.asked.last()->Read_count,
        new_data.chunks.dom().contains(r),
        forall|i: int|
            0 <= i < new_data.asked.last()->data.len() && i < contexts[asset].cluster_size
                ==> #[trigger] new_data.chunks[r].bytes@[i] == new_data.asked.last()->data[i],
{
    reveal(acquire_fill_outcome);
    reveal(fill_now_outcome);
    let a = m.try_acquire(asset, index);
    lemma_resident(m, asset, index);
    let (p, b, mid) = choose|p: usize, b: Model, mid: StreamView|
        {
            &&& #[trigger] reserved_for(a, data, asset, index, cluster_size, p, b, mid)
            &&& if p == 0 {
                r == 0 && n == b && new_data == mid
            } else {
                filled_or_released::<C>(b, contexts, mid, p, r, n, new_data)
            }
        };
    let (active, filled, c) = choose|active: bool, filled: bool, c: Model|
        {
            &&& #[trigger] fill_now_outcome::<C>(
                b,
                contexts,
                asked_active(mid, active),
                p,
                active,
                filled,
                c,
                new_data,
            )
            &&& if filled {
                r == p && n == c.mark_ready(p)
            } else {
                r == 0 && n == c.release(p)
            }
        };
    assert(filled && p == r);
    assert forall|i: int| 0 <= i < m.chunks.len() implies (#[trigger] a.chunks[i]).backing
        == m.chunks[i].backing && a.chunks[i].asset == m.chunks[i].asset && a.chunks[i].index
        == m.chunks[i].index by {}
    assert(unique_addresses(a));
    lemma_slot_at(m, p);
    lemma_slot_at(a, p);
    lemma_resident(a, asset, index);
    lemma_reserved_at(a, asset, index, cluster_size as usize, p, b);
    let d = fill_descriptor(b, contexts, mid.chunks, p);
    let (read_ok, bytes) = choose|read_ok: bool, bytes: Seq<u8>|
        {
            &&& #[trigger] fill_outcome::<C>(
                b,
                contexts,
                mid.chunks,
                p,
                read_ok,
                bytes,
                true,
                c,
                new_data.chunks,
            )
            &&& new_data.asked == asked_active(mid, active).asked.push(
                read_event(active, d, new_data.asked.last()->ok, bytes),
            )
            &&& read_ok == whole_read(d, new_data.asked.last()->ok, bytes)
        };
    assert(read_ok);
    assert(resolved(b, contexts, p) == Some((asset, index, contexts[asset])));
    assert(new_data.asked.last()->data == bytes);
    assert forall|i: int|
        0 <= i < bytes.len() && i < contexts[asset].cluster_size implies #[trigger] new_data.chunks[r].bytes@[i]
        == bytes[i] by {
        native_samples_are_what_was_read::<C>(
            b,
            contexts,
            mid.chunks,
            p,
            bytes,
            c,
            new_data.chunks,
            i,
        );
    }
    lemma_filled_is_stored::<C>(b, contexts, mid.chunks, p, bytes, c, new_data.chunks);
}

/// A chunk that was filled is in the store.
proof fn lemma_filled_is_stored<C: SampleConvert>(
    b: Model,
    contexts: Map<u32, FillContext>,
    chunks: Map<usize, StoredChunk>,
    p: usize,
    bytes: Seq<u8>,
    c: Model,
    new_chunks: Map<usize, StoredChunk>,
)
    requires
        fill_outcome::<C>(b, contexts, chunks, p, true, bytes, true, c, new_chunks),
    ensures
        new_chunks.dom().contains(p),
{
    reveal(chunks_after_finish);
}

/// A window on a cluster that had to be read shows what the card gave for the cluster's place
/// in the file, if the samples need no conversion and no frame reaches into the next cluster.
pub proof fn windows_show_what_the_card_gave<C: SampleConvert>(
    v: ReaderView,
    m: Model,
    contexts: Map<u32, FillContext>,
    data: StreamView,
    cluster: u32,
    byte_offset: u32,
    frame_count: u32,
    r: Window,
    w: ReaderView,
    n: Model,
    new_data: StreamView,
)
    requires
        m.consistent(),
        unique_addresses(m),
        leaves_samples::<C>(),
        window_outcome::<C>(v, m, contexts, data, r, w, n, new_data),
        window_plan(v.geometry, v.current_frame, v.direction) == (WindowPlan::Serve {
            cluster,
            byte_offset,
            frame_count,
            needs_next: false,
        }),
        r.frame_count > 0,
        !holds_cluster(v, cluster),
        m.try_acquire_result(v.asset, cluster) == 0,
        m.resident(v.asset, cluster) is None ==> m.slot_at(r.chunk) is None,
    ensures
        r.byte_offset == byte_offset,
        new_data.asked.len() == data.asked.len() + 2,
        new_data.asked[data.asked.len() as int] is AsyncActive,
        new_data.asked.last() is Read,
        new_data.asked.last()->Read_handle == contexts[v.asset].efatfs_handle,
        new_data.asked.last()->Read_byte_offset == fill_geometry(contexts[v.asset]).byte_offset(cluster),
        new_data.asked.last()->ok,
        forall|i: int|
            0 <= i < new_data.asked.last()->data.len() && i < contexts[v.asset].cluster_size
                ==> #[trigger] new_data.chunks[r.chunk].bytes@[i]
                == new_data.asked.last()->data[i],
{
    reveal(window_outcome);
    reveal(pinned_anew);
    let (q, b, mid, next) = choose|q: usize, b: Model, mid: StreamView, next: bool|
        {
            &&& #[trigger] pin_step::<C>(v, m, contexts, data, cluster, q, b, mid)
            &&& #[trigger] serve_step::<C>(
                v,
                b,
                contexts,
                mid,
                q,
                false,
                cluster,
                next,
                w.held,
                n,
                new_data,
            )
            &&& r == served_window(
                v,
                q,
                byte_offset,
                frame_count,
                false,
                next,
                new_data.chunks,
            )
        };
    assert(q != 0 && r.chunk == q && mid == new_data);
    let c = choose|c: Model| #[trigger]
        acquire_fill_outcome::<C>(
            m,
            contexts,
            data,
            v.asset,
            cluster,
            v.geometry.cluster_size_bytes,
            q,
            c,
            mid,
        ) && b == released_held(c, v.held);
    clusters_hold_what_the_card_gave::<C>(
        m,
        contexts,
        data,
        v.asset,
        cluster,
        v.geometry.cluster_size_bytes,
        q,
        c,
        mid,
    );
}

/// Invalidating leaves every chunk where it is.
pub proof fn lemma_invalidated_places(
    m: Model,
    chunks: Map<usize, StoredChunk>,
    asset: u32,
    n: nat,
)
    requires
        m.consistent(),
        n <= u32::MAX,
    ensures
        same_places(m, invalidated(m, chunks, asset, n).0),
        chunks.dom() == invalidated(m, chunks, asset, n).1.dom(),
    decreases n,
{
    if n > 0 {
        lemma_invalidated_places(m, chunks, asset, (n - 1) as nat);
        let (a, c) = invalidated(m, chunks, asset, (n - 1) as nat);
        let index = (n - 1) as u32;
        lemma_same_resident(m, a, asset, index);
        lemma_resident(m, asset, index);
        let p = a.peek_result(asset, index);
        lemma_slot_at(a, p);
        assert(c.dom() =~= invalidate_step(a, c, asset, index).1.dom());
    }
}

/// Invalidating a sample's first `n` clusters reaches each of them that is resident: it is
/// marked unloadable and is out of the load queue.
pub proof fn invalidation_reaches_every_resident_cluster(
    m: Model,
    chunks: Map<usize, StoredChunk>,
    asset: u32,
    n: nat,
    index: u32,
)
    requires
        m.consistent(),
        unique_addresses(m),
        n <= u32::MAX,
        index < n,
        m.resident(asset, index) is Some,
        chunks.dom().contains(m.peek_result(asset, index)),
    ensures
        invalidated(m, chunks, asset, n).1[m.peek_result(asset, index)].header.unloadable,
        !invalidated(m, chunks, asset, n).0.chunks[m.resident(asset, index)->0].queued,
    decreases n,
{
    let before = (n - 1) as nat;
    let (a, c) = invalidated(m, chunks, asset, before);
    lemma_invalidated_places(m, chunks, asset, before);
    lemma_resident(m, asset, index);
    let i = m.resident(asset, index)->0;
    let p = m.peek_result(asset, index);
    if index < before {
        invalidation_reaches_every_resident_cluster(m, chunks, asset, before, index);
        lemma_same_resident(m, a, asset, before as u32);
        lemma_resident(m, asset, before as u32);
        lemma_slot_at(a, a.peek_result(asset, before as u32));
    } else {
        lemma_same_resident(m, a, asset, index);
        lemma_slot_at(a, p);
        let j = a.slot_at(p)->0;
        assert(a.chunks[i].backing == p);
        assert(m.chunks[j].backing == p && m.chunks[i].backing == p);
        assert(j == i);
    }
}

/// A read that gives fewer frames than were wanted ended with a window that had none (at the
/// end of the audio, or on a failure), had no room for another frame, or met a chunk that
/// does not hold the window's frames.
pub proof fn short_reads_have_a_reason<C: SampleConvert>(
    m: Model,
    contexts: Map<u32, FillContext>,
    data: StreamView,
    asset: u32,
    start_frame: u64,
    num_frames: u32,
    dest: Seq<u8>,
    r: u32,
    new_dest: Seq<u8>,
    n: Model,
    new_data: StreamView,
)
    requires
        contexts.dom().contains(asset),
        stride(context_geometry(contexts[asset])) > 0,
        read_outcome::<C>(
            m,
            contexts,
            data,
            asset,
            start_frame,
            num_frames,
            dest,
            r,
            new_dest,
            n,
            new_data,
        ),
        r < num_frames,
    ensures
        exists|a: ReadState, w: Window, v: ReaderView, x: Model|
            {
                &&& #[trigger] window_outcome::<C>(
                    a.reader,
                    a.tables,
                    contexts,
                    a.data,
                    w,
                    v,
                    x,
                    new_data,
                )
                &&& a.written == r
                &&& a.dest == new_dest
                &&& {
                    ||| w.frame_count == 0
                    ||| a.dest.len() - r * stride(a.reader.geometry) < stride(a.reader.geometry)
                    ||| frames_of(a, w, new_data.chunks, num_frames as int) == 0
                        && !chunk_holds(a, w, new_data.chunks, num_frames as int)
                }
            },
{
    let geo = context_geometry(contexts[asset]);
    let t = choose|t: Seq<ReadState>|
        {
            &&& #[trigger] read_steps::<C>(contexts, num_frames as int, t)
            &&& t.len() > 0
            &&& t[0] == (ReadState {
                reader: opened_reader(geo, asset, start_frame),
                tables: m,
                data,
                dest,
                written: 0,
            })
            &&& t.last().written == r
            &&& t.last().dest == new_dest
            &&& read_end::<C>(contexts, num_frames as int, t.last(), n, new_data)
        };
    let a = t.last();
    reveal(read_end);
    let (w, v, x) = choose|w: Window, v: ReaderView, x: Model|
        {
            &&& #[trigger] window_outcome::<C>(
                a.reader,
                a.tables,
                contexts,
                a.data,
                w,
                v,
                x,
                new_data,
            )
            &&& frames_of(a, w, new_data.chunks, num_frames as int) == 0
            &&& n == released_held(x, v.held)
        };
    lemma_same_geometry::<C>(contexts, num_frames as int, t, t.len() - 1);
    let st = stride(a.reader.geometry);
    let room = a.dest.len() - r * st;
    if room >= st && chunk_holds(a, w, new_data.chunks, num_frames as int) {
        assert(room / st >= 1) by (nonlinear_arith)
            requires
                room >= st,
                st > 0,
        ;
        assert(w.frame_count == 0);
    }
}

/// The chunk holds the frames that the window adds to the read.
pub open spec fn chunk_holds(
    a: ReadState,
    w: Window,
    chunks: Map<usize, StoredChunk>,
    num_frames: int,
) -> bool {
    let st = stride(a.reader.geometry);
    let n = step_frames(
        w.frame_count as int,
        num_frames - a.written,
        a.dest.len() - a.written * st,
        st,
    );
    chunks.dom().contains(w.chunk) && w.byte_offset + n * st <= chunks[w.chunk].bytes@.len()
}

/// A read keeps its geometry.
proof fn lemma_same_geometry<C: SampleConvert>(
    contexts: Map<u32, FillContext>,
    num_frames: int,
    t: Seq<ReadState>,
    k: int,
)
    requires
        0 <= k < t.len(),
        read_steps::<C>(contexts, num_frames, t),
    ensures
        t[k].reader.geometry == t[0].reader.geometry,
    decreases k,
{
    if k > 0 {
        lemma_same_geometry::<C>(contexts, num_frames, t, k - 1);
        reveal(read_steps);
        assert(read_step::<C>(contexts, num_frames, t[k - 1], t[k - 1 + 1]));
        reveal(read_step);
        reveal(window_outcome);
    }
}

} // verus!
