//! What a reader reads: the bytes of the file, as the card gave them.
use crate::fill::chunk::StoredChunk;
use crate::fill::context::FillContext;
use crate::fill::fill_logic::{
    finished, gave, next_stitched, overlay, prev_stitched, stitches, ConvertCall, ConvertState,
    Converted, FillGeometry, NeighbourView, SampleConvert, StitchCall, Stitched,
};
use crate::fill::laws::{fill_reads_what_is_resident, finished_fills_are_ready, lemma_after_prev};
use crate::fill::native::{
    after_prev, as_neighbour, chunks_after_finish, deferred, fill_descriptor, fill_geometry,
    fill_now_outcome, fill_outcome, finish_outcome, logic_state, neighbour_stored, next_leased,
    next_view, prev_leased, prev_view, read_event, read_into, reserved_for, resolved,
    stitched_chunks, whole_read, HostEvent, StreamView,
};
use crate::reader::leases::{
    acquiring_takes_one_lease, as_many, balanced, fills_keep_leases, healthy, holds, lemma_apart,
    lemma_balanced_light, lemma_fill_memory, lemma_first_balanced, lemma_pin, lemma_queued,
    lemma_release_held, lemma_reserve, lemma_serve_memory, lemma_step_memory, lemma_steps_balance,
    lemma_still_booked, lemma_window_memory, reads_keep_leases, windows_balance_their_leases,
};
use crate::reader::sample_reader::{
    acquire_fill_outcome, advanced, advanced_reader, asked_active, context_geometry, copied,
    filled_or_released, frame_cluster, frame_offset, frame_pos, frames_of, held_addr, holds_cluster,
    lemma_plan, lemma_whole, opened_reader, pin_step, pinned_anew, read_end, read_outcome,
    read_step, read_steps, released_held, serve_step, served_window, stride, visited, window_of,
    window_outcome, window_plan, window_stays_in_its_chunk, windows_serve_whole_frames, ReadState,
    ReaderView, Window, WindowPlan,
};
use crate::resource::facade::{kept_or_evicted, newly_reserved, only_evicted, request_outcome};
use crate::resource::index::NONE;
use crate::resource::laws::{lemma_found, requested_chunks_are_found};
use crate::resource::leases::{
    leases_at, lemma_leases_at, lemma_release_leases, lemma_same_leases, lemma_same_slot,
    lemma_try_acquire_leases, light, quiet, same_places,
};
use crate::resource::memory::{lemma_sound_before, one_if, sound};
use crate::resource::model::{lemma_resident, lemma_slot_at, unique_addresses, Model};
use crate::resource::trace::{goes_on, lemma_since};
use vstd::arithmetic::power2::pow2;
use vstd::prelude::*;

verus! {

/// A conversion for samples that need none: it leaves the samples as they are, and a stitch
/// repeats each cluster's first seven bytes behind the cluster before.
pub open spec fn plain<C: SampleConvert>() -> bool {
    &&& forall|call: ConvertCall, c: Converted| #[trigger]
        call_ensures(C::convert_cluster, (call,), c) ==> c.cluster@ == call.cluster@
    &&& forall|call: StitchCall, s: Stitched| #[trigger]
        call_ensures(C::stitch_boundaries, (call,), s) ==> stitched_plainly(call, s)
}

/// What a stitch gives that only repeats first bytes.
pub open spec fn stitched_plainly(call: StitchCall, s: Stitched) -> bool {
    let cs = call.cluster_size as int;
    &&& s.span@.len() == call.span@.len()
    &&& forall|i: int| 0 <= i < cs && i < call.span@.len() ==> #[trigger] s.span@[i] == call.span@[i]
    &&& match call.next {
        Some(edge) => {
            &&& forall|j: int| 0 <= j < 7 ==> #[trigger] s.span@[cs + j] == edge.head@[j]
            &&& s.next is Some ==> (s.next->0).0@ == edge.head@
        },
        None => true,
    }
    &&& match call.prev {
        Some(edge) => {
            &&& s.prev is Some
            &&& (s.prev->0).0@.len() == 11
            &&& forall|j: int| 0 <= j < 4 ==> #[trigger] (s.prev->0).0@[j] == edge.tail@[j]
            &&& forall|j: int| 0 <= j < 7 ==> (#[trigger] (s.prev->0).0@[4 + j]) == call.span@[j]
        },
        None => true,
    }
}

/// What ending a fill with a plain conversion makes of the chunks: the chunk at `p` keeps its
/// cluster, and behind it come the next one's first bytes; behind the cluster before come
/// its own.
proof fn lemma_finish_bytes<C: SampleConvert>(
    old_chunks: Map<usize, StoredChunk>,
    geo: FillGeometry,
    p: usize,
    index: u32,
    pq: usize,
    nq: usize,
    prev: Option<NeighbourView>,
    next: Option<NeighbourView>,
    new_chunks: Map<usize, StoredChunk>,
)
    requires
        plain::<C>(),
        chunks_after_finish::<C>(
            old_chunks,
            geo,
            p,
            index,
            pq,
            nq,
            prev,
            next,
            new_chunks,
        ),
        old_chunks.dom().contains(p),
        geo.cluster_size >= 7,
        old_chunks[p].bytes@.len() >= geo.cluster_size + 7,
        prev is Some ==> prev->0.payload@ == old_chunks[pq].bytes@ && prev->0.payload@.len()
            >= geo.cluster_size + 7,
        next is Some ==> next->0.payload@ == old_chunks[nq].bytes@ && next->0.payload@.len()
            >= geo.cluster_size + 7,
    ensures
        new_chunks.dom() == old_chunks.dom(),
        ({
            let cs = geo.cluster_size as int;
            let me = old_chunks[p].bytes@;
            let now = new_chunks[p].bytes@;
            &&& now.len() == me.len()
            &&& forall|j: int| 0 <= j < cs ==> #[trigger] now[j] == me[j]
            &&& next is Some ==> {
                &&& forall|j: int| 0 <= j < 7 ==> #[trigger] now[cs + j] == next->0.payload@[j]
                &&& new_chunks.dom().contains(nq)
                &&& new_chunks[nq].bytes@ == old_chunks[nq].bytes@
            }
            &&& prev is Some ==> {
                let b = old_chunks[pq].bytes@;
                let n = new_chunks[pq].bytes@;
                &&& new_chunks.dom().contains(pq)
                &&& n.len() == b.len()
                &&& forall|j: int| 0 <= j < cs ==> #[trigger] n[j] == b[j]
                &&& forall|j: int| 0 <= j < 7 ==> #[trigger] n[cs + j] == me[j]
            }
        }),
        forall|q: usize|
            q != p && !(prev is Some && q == pq) && !(next is Some && q == nq)
                && old_chunks.dom().contains(q) ==> #[trigger] new_chunks[q] == old_chunks[q],
{
    reveal(chunks_after_finish);
    let cs = geo.cluster_size as int;
    let me = old_chunks[p].bytes@;
    let state = logic_state(old_chunks[p].header.state());
    let (c, s, st, v, w) = choose|
        c: Converted,
        s: Stitched,
        st: ConvertState,
        v: Option<NeighbourView>,
        w: Option<NeighbourView>,
    |
        {
            &&& #[trigger] finished(me, geo, c, s, new_chunks[p].bytes@, st)
            &&& gave::<C>(me, index, geo, state, prev, next, c, s)
            &&& #[trigger] prev_stitched(prev, geo.cluster_size as int, s.prev, v)
            &&& neighbour_stored(old_chunks, pq, v, new_chunks)
            &&& #[trigger] next_stitched(next, s.next, w)
            &&& neighbour_stored(old_chunks, nq, w, new_chunks)
        };
    assert(c.cluster@ == me.subrange(0, cs));
    let converted = overlay(me, 0, c.cluster@, cs);
    assert(converted =~= me);
    let call = choose|call: StitchCall|
        stitches(
            converted,
            index,
            geo,
            ConvertState { first_three_bytes: c.first_three_bytes, ..state },
            prev,
            next,
            call,
        ) && #[trigger] call_ensures(C::stitch_boundaries, (call,), s);
    assert(stitched_plainly(call, s));
    let now = new_chunks[p].bytes@;
    assert(now =~= s.span@);
    if next is Some {
        let head = call.next->0.head@;
        assert(head == next->0.payload@.subrange(0, 7));
        assert forall|j: int| 0 <= j < 7 implies #[trigger] now[cs + j] == next->0.payload@[j] by {
            assert(s.span@[cs + j] == head[j]);
        }
        assert(w->0.payload@ =~= next->0.payload@);
    }
    if prev is Some {
        let b = prev->0.payload@;
        let tail = call.prev->0.tail@;
        let n = new_chunks[pq].bytes@;
        assert(tail == b.subrange(cs - 4, cs + 7));
        assert(n == overlay(b, cs - 4, (s.prev->0).0@, 11));
        assert forall|j: int| 0 <= j < cs implies #[trigger] n[j] == b[j] by {
            if j >= cs - 4 {
                assert((s.prev->0).0@[j - (cs - 4)] == tail[j - (cs - 4)]);
            }
        }
        assert forall|j: int| 0 <= j < 7 implies #[trigger] n[cs + j] == me[j] by {
            assert((s.prev->0).0@[4 + j] == call.span@[j]);
        }
    }
}

/// Clusters are whole sectors, and as long as their magnitude says.
pub open spec fn regular(ctx: FillContext) -> bool {
    &&& ctx.cluster_size_magnitude < 31
    &&& ctx.cluster_size == pow2(ctx.cluster_size_magnitude as nat)
    &&& ctx.cluster_size % 512 == 0
}

/// Where cluster `index` starts in the file.
pub open spec fn place(ctx: FillContext, index: u32) -> int {
    fill_geometry(ctx).byte_offset(index) as int
}

/// How many bytes of cluster `index` a fill reads.
pub open spec fn filled(ctx: FillContext, index: u32) -> int {
    let n = fill_geometry(ctx).sectors(index) * 512;
    if n < ctx.cluster_size {
        n
    } else {
        ctx.cluster_size as int
    }
}

/// `bytes` are those of cluster `index` of a file, as far as a fill reads them; `f` says what
/// is in the files.
pub open spec fn shows(
    ctx: FillContext,
    index: u32,
    bytes: Seq<u8>,
    f: spec_fn(u32, int) -> u8,
) -> bool {
    &&& bytes.len() >= ctx.cluster_size + 7
    &&& filled(ctx, index) >= 7
    &&& forall|j: int|
        0 <= j < filled(ctx, index) ==> #[trigger] bytes[j] == f(
            ctx.efatfs_handle,
            place(ctx, index) + j,
        )
}

/// Behind cluster `index` come the first bytes of the next one.
pub open spec fn shows_slack(
    ctx: FillContext,
    index: u32,
    bytes: Seq<u8>,
    f: spec_fn(u32, int) -> u8,
) -> bool {
    forall|j: int|
        0 <= j < 7 ==> #[trigger] bytes[ctx.cluster_size + j] == f(
            ctx.efatfs_handle,
            place(ctx, (index + 1) as u32) + j,
        )
}

/// Slot `i` holds a chunk of `asset` that is ready.
pub open spec fn is_ready(m: Model, i: int, asset: u32) -> bool {
    &&& 0 <= i < m.chunks.len()
    &&& m.chunks[i].backing != 0
    &&& m.chunks[i].ready
    &&& m.chunks[i].asset == asset
}

/// What the chunk in slot `i` holds.
pub open spec fn held_bytes(m: Model, chunks: Map<usize, StoredChunk>, i: int) -> Seq<u8> {
    chunks[m.chunks[i].backing].bytes@
}

/// Every chunk of `asset` that is ready shows its cluster of the file, and behind it, if that
/// is ready too, the start of the next.
#[verifier::opaque]
pub open spec fn faithful(
    m: Model,
    ctx: FillContext,
    chunks: Map<usize, StoredChunk>,
    f: spec_fn(u32, int) -> u8,
    asset: u32,
) -> bool {
    &&& forall|i: int| #[trigger]
        is_ready(m, i, asset) ==> {
            &&& chunks.dom().contains(m.chunks[i].backing)
            &&& shows(ctx, m.chunks[i].index, held_bytes(m, chunks, i), f)
        }
    &&& forall|i: int, k: int|
        #[trigger] is_ready(m, i, asset) && #[trigger] is_ready(m, k, asset) && m.chunks[k].index
            == m.chunks[i].index + 1 ==> shows_slack(
            ctx,
            m.chunks[i].index,
            held_bytes(m, chunks, i),
            f,
        )
}

/// If nothing moves and nothing becomes ready, what is shown stays so.
proof fn lemma_quiet_faithful(
    m: Model,
    n: Model,
    ctx: FillContext,
    chunks: Map<usize, StoredChunk>,
    f: spec_fn(u32, int) -> u8,
    asset: u32,
)
    requires
        quiet(m, n),
        faithful(m, ctx, chunks, f, asset),
    ensures
        faithful(n, ctx, chunks, f, asset),
{
    reveal(faithful);
    assert forall|i: int| #[trigger] is_ready(n, i, asset) implies is_ready(m, i, asset)
        && n.chunks[i].backing == m.chunks[i].backing && n.chunks[i].index == m.chunks[i].index by {
    }
}

proof fn lemma_quiet_unique(m: Model, n: Model)
    requires
        same_places(m, n),
        m.unique_keys(),
    ensures
        n.unique_keys(),
{
    assert forall|a: int, b: int|
        0 <= a < n.chunks.len() && 0 <= b < n.chunks.len() && n.keyed(a) && n.chunks[b].holds(
            n.chunks[a].asset,
            n.chunks[a].index,
        ) implies a == b by {
        assert(m.keyed(a));
        assert(m.chunks[b].holds(m.chunks[a].asset, m.chunks[a].index));
    }
}

/// The chunk that a lookup of a ready cluster gives.
proof fn lemma_ready_found(m: Model, n: Model, asset: u32, index: u32)
    requires
        n.consistent(),
        m.unique_keys(),
        quiet(m, n),
        asset != NONE,
    ensures
        forall|k: int| #[trigger]
            is_ready(m, k, asset) && m.chunks[k].index == index ==> n.try_acquire_result(
                asset,
                index,
            ) == m.chunks[k].backing,
        n.try_acquire_result(asset, index) != 0 ==> exists|k: int| #[trigger]
            is_ready(m, k, asset) && m.chunks[k].index == index && m.chunks[k].backing
                == n.try_acquire_result(asset, index),
{
    lemma_quiet_unique(m, n);
    lemma_resident(n, asset, index);
    assert forall|k: int| #[trigger]
        is_ready(m, k, asset) && m.chunks[k].index == index implies n.try_acquire_result(
        asset,
        index,
    ) == m.chunks[k].backing by {
        lemma_found(n, k, asset, index);
    }
    if n.try_acquire_result(asset, index) != 0 {
        let k = n.resident(asset, index)->0;
        assert(is_ready(m, k, asset));
    }
}

/// Of the chunk at `p`, of cluster `index`, which is not ready, the neighbours that are ready
/// are at `pq` and `nq`; 0 is none.
#[verifier::opaque]
spec fn neighbours_are(m: Model, asset: u32, index: u32, p: usize, pq: usize, nq: usize) -> bool {
    &&& pq != p
    &&& nq != p
    &&& pq != 0 ==> pq != nq
    &&& pq != 0 ==> exists|k: int| #[trigger]
        is_ready(m, k, asset) && m.chunks[k].index + 1 == index && m.chunks[k].backing == pq
    &&& nq != 0 ==> exists|k: int| #[trigger]
        is_ready(m, k, asset) && m.chunks[k].index == index + 1 && m.chunks[k].backing == nq
    &&& forall|k: int| #[trigger]
        is_ready(m, k, asset) && m.chunks[k].index + 1 == index ==> m.chunks[k].backing == pq
    &&& forall|k: int| #[trigger]
        is_ready(m, k, asset) && m.chunks[k].index == index + 1 ==> m.chunks[k].backing == nq
    &&& forall|k: int| #[trigger] is_ready(m, k, asset) ==> m.chunks[k].index != index
    &&& forall|k: int| #[trigger] is_ready(m, k, asset) ==> m.chunks[k].backing != p
}

/// What a plain stitch makes of the chunks `mid`.
#[verifier::opaque]
spec fn bytes_after(
    cluster_size: u32,
    mid: Map<usize, StoredChunk>,
    new_chunks: Map<usize, StoredChunk>,
    p: usize,
    pq: usize,
    nq: usize,
) -> bool {
    let cs = cluster_size as int;
    let me = mid[p].bytes@;
    let now = new_chunks[p].bytes@;
    &&& new_chunks.dom() == mid.dom()
    &&& now.len() == me.len()
    &&& forall|j: int| 0 <= j < cs ==> #[trigger] now[j] == me[j]
    &&& nq != 0 ==> {
        &&& forall|j: int| 0 <= j < 7 ==> #[trigger] now[cs + j] == mid[nq].bytes@[j]
        &&& new_chunks[nq].bytes@ == mid[nq].bytes@
    }
    &&& pq != 0 ==> {
        let b = mid[pq].bytes@;
        let w = new_chunks[pq].bytes@;
        &&& w.len() == b.len()
        &&& forall|j: int| 0 <= j < cs ==> #[trigger] w[j] == b[j]
        &&& forall|j: int| 0 <= j < 7 ==> #[trigger] w[cs + j] == me[j]
    }
    &&& forall|q: usize|
        q != p && !(pq != 0 && q == pq) && !(nq != 0 && q == nq) && mid.dom().contains(q)
            ==> #[trigger] new_chunks[q] == mid[q]
}

/// The neighbours that a fill of cluster `index`, in slot `si` at `p`, finds: those that are
/// ready, and each in a slot of its own.
proof fn lemma_neighbours(
    m: Model,
    a: Model,
    b: Model,
    asset: u32,
    index: u32,
    si: int,
    p: usize,
    pq: usize,
    nq: usize,
)
    requires
        a.consistent(),
        b.consistent(),
        unique_addresses(m),
        m.unique_keys(),
        quiet(m, a),
        quiet(m, b),
        asset != NONE,
        0 <= si < m.chunks.len(),
        m.chunks[si].backing == p,
        m.chunks[si].asset == asset,
        m.chunks[si].index == index,
        p != 0,
        !m.chunks[si].ready,
        pq == (if index > 0 {
            a.try_acquire_result(asset, (index - 1) as u32)
        } else {
            0
        }),
        nq == (if index < u32::MAX {
            b.try_acquire_result(asset, (index + 1) as u32)
        } else {
            0
        }),
    ensures
        neighbours_are(m, asset, index, p, pq, nq),
{
    reveal(neighbours_are);
    if index > 0 {
        lemma_ready_found(m, a, asset, (index - 1) as u32);
    }
    if index < u32::MAX {
        lemma_ready_found(m, b, asset, (index + 1) as u32);
    }
    assert forall|k: int| #[trigger] is_ready(m, k, asset) implies m.chunks[k].index != index
        && m.chunks[k].backing != p by {
        assert(k != si);
        assert(m.keyed(si));
        if m.chunks[k].index == index {
            assert(m.chunks[k].holds(m.chunks[si].asset, m.chunks[si].index));
        }
    }
    if pq != 0 {
        let k = choose|k: int| #[trigger]
            is_ready(m, k, asset) && m.chunks[k].index + 1 == index && m.chunks[k].backing == pq;
        if nq != 0 {
            let l = choose|l: int| #[trigger]
                is_ready(m, l, asset) && m.chunks[l].index == index + 1 && m.chunks[l].backing
                    == nq;
            assert(k != l);
        }
    }
}

/// A fill reads at least a sector.
proof fn lemma_filled(ctx: FillContext, index: u32)
    requires
        regular(ctx),
        !fill_geometry(ctx).past_end(index),
    ensures
        ctx.cluster_size >= 512,
        fill_geometry(ctx).sectors(index) >= 1,
        7 <= filled(ctx, index) <= ctx.cluster_size,
{
    vstd::arithmetic::power2::lemma_pow2_pos(ctx.cluster_size_magnitude as nat);
}

/// After a fill the chunk shows its cluster of the file, if the card gave that.
proof fn lemma_fill_faithful<C: SampleConvert>(
    m: Model,
    contexts: Map<u32, FillContext>,
    chunks: Map<usize, StoredChunk>,
    p: usize,
    bytes: Seq<u8>,
    n: Model,
    new_chunks: Map<usize, StoredChunk>,
    f: spec_fn(u32, int) -> u8,
    asset: u32,
    index: u32,
)
    requires
        m.consistent(),
        unique_addresses(m),
        m.unique_keys(),
        light(m, 3),
        plain::<C>(),
        contexts.dom().contains(asset),
        regular(contexts[asset]),
        asset != NONE,
        resolved(m, contexts, p) == Some((asset, index, contexts[asset])),
        !fill_geometry(contexts[asset]).past_end(index),
        bytes.len() == fill_geometry(contexts[asset]).sectors(index) * 512,
        forall|j: int|
            0 <= j < bytes.len() ==> #[trigger] bytes[j] == f(
                contexts[asset].efatfs_handle,
                place(contexts[asset], index) + j,
            ),
        fill_outcome::<C>(m, contexts, chunks, p, true, bytes, true, n, new_chunks),
        faithful(m, contexts[asset], chunks, f, asset),
        !m.chunks[m.slot_at(p)->0].ready,
    ensures
        same_places(m, n),
        is_ready(n, m.slot_at(p)->0, asset),
        faithful(n, contexts[asset], new_chunks, f, asset),
{
    let ctx = contexts[asset];
    let si = m.slot_at(p)->0;
    lemma_slot_at(m, p);
    let s0 = m.searched_ptr(p);
    let mid = choose|mid: Map<usize, StoredChunk>| #[trigger]
        read_into(chunks, p, bytes, mid) && finish_outcome::<C>(
            s0,
            contexts,
            mid,
            p,
            true,
            true,
            n,
            new_chunks,
        );
    lemma_same_leases(m, p, 0, 0);
    lemma_same_slot(m, s0, p);
    lemma_same_light(m, s0);
    finished_fills_are_ready::<C>(s0, contexts, mid, p, n, new_chunks);
    lemma_filled(ctx, index);
    lemma_finish_chunks::<C>(s0, contexts, mid, p, n, new_chunks, asset, index);
    let a = s0.searched_ptr(p);
    lemma_same_leases(s0, p, 0, 0);
    lemma_same_light(s0, a);
    lemma_neighbours_at(m, a, asset, index, p);
    lemma_finish_faithful::<C>(
        m,
        ctx,
        chunks,
        mid,
        p,
        bytes,
        n,
        new_chunks,
        f,
        asset,
        index,
        prev_leased(a, asset, index),
        next_leased(after_prev(a, asset, index), asset, index),
    );
}

proof fn lemma_same_light(m: Model, n: Model)
    requires
        light(m, 3),
        forall|q: usize| q != 0 ==> #[trigger] leases_at(n, q) == leases_at(m, q),
    ensures
        light(n, 3),
{
    assert forall|q: usize| #[trigger] leases_at(n, q) <= u32::MAX - 3 by {
        assert(leases_at(m, q) <= u32::MAX - 3);
        assert(leases_at(n, 0) == 0);
    }
}

/// What the end of a fill does to the chunks.
proof fn lemma_finish_chunks<C: SampleConvert>(
    m: Model,
    contexts: Map<u32, FillContext>,
    chunks: Map<usize, StoredChunk>,
    p: usize,
    n: Model,
    new_chunks: Map<usize, StoredChunk>,
    asset: u32,
    index: u32,
)
    requires
        resolved(m, contexts, p) == Some((asset, index, contexts[asset])),
        finish_outcome::<C>(m, contexts, chunks, p, true, true, n, new_chunks),
    ensures
        chunks.dom().contains(p),
        chunks[p].bytes@.len() >= contexts[asset].cluster_size + 7,
        ({
            let a = m.searched_ptr(p);
            stitched_chunks::<C>(
                chunks,
                fill_geometry(contexts[asset]),
                p,
                index,
                prev_leased(a, asset, index),
                next_leased(after_prev(a, asset, index), asset, index),
                new_chunks,
            )
        }),
{
}

/// The neighbours that the end of a fill finds.
proof fn lemma_neighbours_at(m: Model, a: Model, asset: u32, index: u32, p: usize)
    requires
        a.consistent(),
        unique_addresses(a),
        quiet(m, a),
        light(a, 3),
        unique_addresses(m),
        m.unique_keys(),
        asset != NONE,
        m.slot_at(p) is Some,
        m.chunks[m.slot_at(p)->0].asset == asset,
        m.chunks[m.slot_at(p)->0].index == index,
        !m.chunks[m.slot_at(p)->0].ready,
    ensures
        neighbours_are(
            m,
            asset,
            index,
            p,
            prev_leased(a, asset, index),
            next_leased(after_prev(a, asset, index), asset, index),
        ),
{
    let si = m.slot_at(p)->0;
    lemma_slot_at(m, p);
    assert(light(a, 1)) by {
        assert forall|q: usize| #[trigger] leases_at(a, q) <= u32::MAX - 1 by {
            assert(leases_at(a, q) <= u32::MAX - 3);
        }
    }
    lemma_after_prev(a, asset, index);
    let b = after_prev(a, asset, index);
    let pq = prev_leased(a, asset, index);
    let nq = next_leased(b, asset, index);
    assert(pq == (if index > 0 {
        a.try_acquire_result(asset, (index - 1) as u32)
    } else {
        0
    })) by {
        reveal(prev_leased);
    }
    assert(nq == (if index < u32::MAX {
        b.try_acquire_result(asset, (index + 1) as u32)
    } else {
        0
    })) by {
        reveal(next_leased);
    }
    lemma_neighbours(m, a, b, asset, index, si, p, pq, nq);
}

/// The same, for the end of the fill.
proof fn lemma_finish_faithful<C: SampleConvert>(
    m: Model,
    ctx: FillContext,
    chunks: Map<usize, StoredChunk>,
    mid: Map<usize, StoredChunk>,
    p: usize,
    bytes: Seq<u8>,
    n: Model,
    new_chunks: Map<usize, StoredChunk>,
    f: spec_fn(u32, int) -> u8,
    asset: u32,
    index: u32,
    pq: usize,
    nq: usize,
)
    requires
        unique_addresses(m),
        plain::<C>(),
        m.slot_at(p) is Some,
        m.chunks[m.slot_at(p)->0].asset == asset,
        m.chunks[m.slot_at(p)->0].index == index,
        neighbours_are(m, asset, index, p, pq, nq),
        7 <= filled(ctx, index) <= ctx.cluster_size,
        ctx.cluster_size >= 512,
        bytes.len() >= filled(ctx, index),
        forall|j: int|
            0 <= j < bytes.len() ==> #[trigger] bytes[j] == f(
                ctx.efatfs_handle,
                place(ctx, index) + j,
            ),
        read_into(chunks, p, bytes, mid),
        mid.dom().contains(p),
        mid[p].bytes@.len() >= ctx.cluster_size + 7,
        stitched_chunks::<C>(mid, fill_geometry(ctx), p, index, pq, nq, new_chunks),
        faithful(m, ctx, chunks, f, asset),
        same_places(m, n),
        forall|i: int|
            0 <= i < m.chunks.len() ==> (#[trigger] n.chunks[i]).ready == (m.chunks[i].ready
                || m.slot_at(p) == Some(i)),
    ensures
        is_ready(n, m.slot_at(p)->0, asset),
        faithful(n, ctx, new_chunks, f, asset),
{
    let geo = fill_geometry(ctx);
    let si = m.slot_at(p)->0;
    lemma_slot_at(m, p);
    lemma_views(m, ctx, chunks, mid, f, asset, index, p, pq, nq, bytes);
    assert(bytes_after(ctx.cluster_size, mid, new_chunks, p, pq, nq)) by {
        lemma_finish_bytes::<C>(
            mid,
            geo,
            p,
            index,
            pq,
            nq,
            prev_view(mid, p, pq, geo.cluster_size),
            next_view(mid, p, pq, nq, geo.cluster_size),
            new_chunks,
        );
        reveal(bytes_after);
    }
    lemma_faithful_after(m, n, ctx, chunks, mid, new_chunks, f, asset, index, si, p, pq, nq, bytes);
}

/// The neighbours take part in the stitch exactly if they are ready.
proof fn lemma_views(
    m: Model,
    ctx: FillContext,
    chunks: Map<usize, StoredChunk>,
    mid: Map<usize, StoredChunk>,
    f: spec_fn(u32, int) -> u8,
    asset: u32,
    index: u32,
    p: usize,
    pq: usize,
    nq: usize,
    bytes: Seq<u8>,
)
    requires
        faithful(m, ctx, chunks, f, asset),
        read_into(chunks, p, bytes, mid),
        ctx.cluster_size >= 512,
        neighbours_are(m, asset, index, p, pq, nq),
    ensures
        prev_view(mid, p, pq, ctx.cluster_size) == (if pq != 0 {
            Some(as_neighbour(mid[pq]))
        } else {
            None
        }),
        next_view(mid, p, pq, nq, ctx.cluster_size) == (if nq != 0 {
            Some(as_neighbour(mid[nq]))
        } else {
            None
        }),
        pq != 0 ==> mid[pq].bytes@.len() >= ctx.cluster_size + 7,
        nq != 0 ==> mid[nq].bytes@.len() >= ctx.cluster_size + 7,
{
    reveal(faithful);
    reveal(neighbours_are);
    if pq != 0 {
        let k = choose|k: int| #[trigger]
            is_ready(m, k, asset) && m.chunks[k].index + 1 == index && m.chunks[k].backing == pq;
        assert(shows(ctx, m.chunks[k].index, held_bytes(m, chunks, k), f));
        assert(mid[pq] == chunks[pq] && mid.dom().contains(pq));
    }
    if nq != 0 {
        let k = choose|k: int| #[trigger]
            is_ready(m, k, asset) && m.chunks[k].index == index + 1 && m.chunks[k].backing == nq;
        assert(shows(ctx, m.chunks[k].index, held_bytes(m, chunks, k), f));
        assert(mid[nq] == chunks[nq] && mid.dom().contains(nq));
    }
}

/// What the bytes after a fill show.
proof fn lemma_faithful_after(
    m: Model,
    n: Model,
    ctx: FillContext,
    chunks: Map<usize, StoredChunk>,
    mid: Map<usize, StoredChunk>,
    new_chunks: Map<usize, StoredChunk>,
    f: spec_fn(u32, int) -> u8,
    asset: u32,
    index: u32,
    si: int,
    p: usize,
    pq: usize,
    nq: usize,
    bytes: Seq<u8>,
)
    requires
        same_places(m, n),
        0 <= si < m.chunks.len(),
        m.chunks[si].backing == p,
        m.chunks[si].asset == asset,
        m.chunks[si].index == index,
        p != 0,
        forall|i: int|
            0 <= i < m.chunks.len() ==> (#[trigger] n.chunks[i]).ready == (m.chunks[i].ready || i
                == si),
        faithful(m, ctx, chunks, f, asset),
        read_into(chunks, p, bytes, mid),
        7 <= filled(ctx, index) <= ctx.cluster_size,
        bytes.len() >= filled(ctx, index),
        forall|j: int|
            0 <= j < bytes.len() ==> #[trigger] bytes[j] == f(
                ctx.efatfs_handle,
                place(ctx, index) + j,
            ),
        mid[p].bytes@.len() >= ctx.cluster_size + 7,
        ctx.cluster_size >= 7,
        neighbours_are(m, asset, index, p, pq, nq),
        unique_addresses(m),
        bytes_after(ctx.cluster_size, mid, new_chunks, p, pq, nq),
    ensures
        faithful(n, ctx, new_chunks, f, asset),
{
    reveal(faithful);
    reveal(neighbours_are);
    reveal(bytes_after);
    assert forall|j: int| 0 <= j < filled(ctx, index) implies mid[p].bytes@[j] == f(
        ctx.efatfs_handle,
        place(ctx, index) + j,
    ) by {
        assert(mid[p].bytes@[j] == bytes[j]);
    }
    assert forall|i: int| #[trigger] is_ready(n, i, asset) implies {
        &&& new_chunks.dom().contains(n.chunks[i].backing)
        &&& shows(ctx, n.chunks[i].index, held_bytes(n, new_chunks, i), f)
    } by {
        let q = n.chunks[i].backing;
        if i != si {
            assert(is_ready(m, i, asset));
            assert(mid[q] == chunks[q]);
            let before = chunks[q].bytes@;
            let after = new_chunks[q].bytes@;
            assert(shows(ctx, m.chunks[i].index, before, f));
            assert(after.len() == before.len());
            assert forall|j: int| 0 <= j < filled(ctx, m.chunks[i].index) implies #[trigger] after[j]
                == f(ctx.efatfs_handle, place(ctx, m.chunks[i].index) + j) by {
                assert(before[j] == f(ctx.efatfs_handle, place(ctx, m.chunks[i].index) + j));
                assert(after[j] == before[j]);
            }
        } else {
            assert(q == p);
        }
    }
    assert forall|i: int, k: int|
        #[trigger] is_ready(n, i, asset) && #[trigger] is_ready(n, k, asset) && n.chunks[k].index
            == n.chunks[i].index + 1 implies shows_slack(
        ctx,
        n.chunks[i].index,
        held_bytes(n, new_chunks, i),
        f,
    ) by {
        let q = n.chunks[i].backing;
        if i == si {
            assert(is_ready(m, k, asset));
            assert(m.chunks[k].backing == nq);
            assert(mid[nq] == chunks[nq]);
            assert(shows(ctx, m.chunks[k].index, chunks[nq].bytes@, f));
        } else if k == si {
            assert(is_ready(m, i, asset));
            assert(q == pq);
        } else {
            assert(is_ready(m, i, asset) && is_ready(m, k, asset));
            assert(shows_slack(ctx, m.chunks[i].index, chunks[q].bytes@, f));
            assert(mid[q] == chunks[q]);
            if pq != 0 && q == pq {
                let l = choose|l: int| #[trigger]
                    is_ready(m, l, asset) && m.chunks[l].index + 1 == index && m.chunks[l].backing
                        == pq;
                assert(l == i);
            }
            assert(new_chunks[q].bytes@ == chunks[q].bytes@);
        }
    }
}

/// The card gives what is in the files: what each read that went well gave is what `f` says,
/// and no more than was asked for.
pub open spec fn tells(asked: Seq<HostEvent>, f: spec_fn(u32, int) -> u8) -> bool {
    forall|k: int| 0 <= k < asked.len() ==> told_of(#[trigger] asked[k], f)
}

/// The same, of one answer.
pub open spec fn told_of(e: HostEvent, f: spec_fn(u32, int) -> u8) -> bool {
    match e {
        HostEvent::Read { handle, byte_offset, count, ok, data, .. } => ok ==> {
            &&& data.len() <= count
            &&& forall|j: int|
                0 <= j < data.len() ==> #[trigger] data[j] == f(handle, byte_offset + j)
        },
        _ => true,
    }
}

/// What the card told up to `b` it told up to `a`.
proof fn lemma_tells_before(a: Seq<HostEvent>, b: Seq<HostEvent>, f: spec_fn(u32, int) -> u8)
    requires
        goes_on(a, b),
        tells(b, f),
    ensures
        tells(a, f),
{
    assert forall|k: int| 0 <= k < a.len() implies told_of(#[trigger] a[k], f) by {
        assert(b.take(a.len() as int)[k] == b[k]);
    }
}

/// Bytes of a chunk that is not ready do not matter.
proof fn lemma_unready_faithful(
    m: Model,
    n: Model,
    ctx: FillContext,
    chunks: Map<usize, StoredChunk>,
    new_chunks: Map<usize, StoredChunk>,
    f: spec_fn(u32, int) -> u8,
    asset: u32,
    p: usize,
)
    requires
        quiet(m, n),
        unique_addresses(m),
        faithful(m, ctx, chunks, f, asset),
        m.slot_at(p) is Some ==> !m.chunks[m.slot_at(p)->0].ready,
        forall|q: usize|
            q != p && chunks.dom().contains(q) ==> new_chunks.dom().contains(q)
                && #[trigger] new_chunks[q] == chunks[q],
    ensures
        faithful(n, ctx, new_chunks, f, asset),
{
    reveal(faithful);
    assert forall|i: int| #[trigger] is_ready(n, i, asset) implies {
        &&& is_ready(m, i, asset)
        &&& n.chunks[i].backing == m.chunks[i].backing
        &&& n.chunks[i].index == m.chunks[i].index
        &&& new_chunks.dom().contains(n.chunks[i].backing)
        &&& held_bytes(n, new_chunks, i) == held_bytes(m, chunks, i)
    } by {
        assert(is_ready(m, i, asset));
        lemma_leases_at(m, i);
        assert(n.chunks[i].backing != p);
        assert(new_chunks[n.chunks[i].backing] == chunks[n.chunks[i].backing]);
    }
}

/// A fill, whether it goes well or not, leaves shown what was shown, and shows its cluster if
/// it goes well.
proof fn lemma_fill_step<C: SampleConvert>(
    m: Model,
    contexts: Map<u32, FillContext>,
    a: StreamView,
    p: usize,
    awaited: bool,
    r: bool,
    n: Model,
    b: StreamView,
    f: spec_fn(u32, int) -> u8,
    asset: u32,
    index: u32,
)
    requires
        m.consistent(),
        unique_addresses(m),
        m.unique_keys(),
        light(m, 3),
        plain::<C>(),
        contexts.dom().contains(asset),
        regular(contexts[asset]),
        asset != NONE,
        resolved(m, contexts, p) == Some((asset, index, contexts[asset])),
        !m.chunks[m.slot_at(p)->0].ready,
        fill_now_outcome::<C>(m, contexts, a, p, awaited, r, n, b),
        tells(b.asked, f),
        faithful(m, contexts[asset], a.chunks, f, asset),
    ensures
        faithful(n, contexts[asset], b.chunks, f, asset),
        r ==> is_ready(n, m.slot_at(p)->0, asset),
        !r ==> quiet(m, n),
{
    reveal(fill_now_outcome);
    let ctx = contexts[asset];
    let d = fill_descriptor(m, contexts, a.chunks, p);
    let s0 = m.searched_ptr(p);
    lemma_same_leases(m, p, 0, 0);
    lemma_same_leases(s0, p, 0, 0);
    if d.ok && deferred(a, b) {
        lemma_queued(m, p, b.asked.last()->priority);
        lemma_unready_faithful(m, n, ctx, a.chunks, b.chunks, f, asset, p);
    } else if d.ok {
        let (read_ok, bytes) = choose|read_ok: bool, bytes: Seq<u8>|
            {
                &&& #[trigger] fill_outcome::<C>(
                    m,
                    contexts,
                    a.chunks,
                    p,
                    read_ok,
                    bytes,
                    r,
                    n,
                    b.chunks,
                )
                &&& b.asked == a.asked.push(read_event(awaited, d, b.asked.last()->ok, bytes))
                &&& read_ok == whole_read(d, b.asked.last()->ok, bytes)
            };
        if r {
            assert(read_ok);
            assert(told_of(b.asked[a.asked.len() as int], f));
            lemma_sectors(ctx, index);
            lemma_fill_faithful::<C>(
                m,
                contexts,
                a.chunks,
                p,
                bytes,
                n,
                b.chunks,
                f,
                asset,
                index,
            );
        } else {
            let mid = choose|mid: Map<usize, StoredChunk>| #[trigger]
                read_into(a.chunks, p, bytes, mid) && finish_outcome::<C>(
                    s0,
                    contexts,
                    mid,
                    p,
                    read_ok,
                    r,
                    n,
                    b.chunks,
                );
            assert(b.chunks == mid);
            lemma_unready_faithful(m, n, ctx, a.chunks, mid, f, asset, p);
        }
    } else {
        lemma_unready_faithful(m, n, ctx, a.chunks, b.chunks, f, asset, p);
    }
}

/// The number of bytes that a fill asks for fits.
proof fn lemma_sectors(ctx: FillContext, index: u32)
    requires
        regular(ctx),
        !fill_geometry(ctx).past_end(index),
    ensures
        0 <= fill_geometry(ctx).sectors(index) * 512 <= u32::MAX,
        fill_geometry(ctx).sectors(index) as u32 == fill_geometry(ctx).sectors(index),
{
    lemma_filled(ctx, index);
    vstd::arithmetic::power2::lemma_pow2_strictly_increases(
        ctx.cluster_size_magnitude as nat,
        31,
    );
    vstd::arithmetic::power2::lemma2_to64();
}

/// A reservation leaves shown what was shown.
proof fn lemma_reserve_faithful(
    m: Model,
    ctx: FillContext,
    data: StreamView,
    asset: u32,
    index: u32,
    cluster_size: u32,
    p: usize,
    n: Model,
    new_data: StreamView,
    f: spec_fn(u32, int) -> u8,
)
    requires
        m.consistent(),
        unique_addresses(m),
        unique_addresses(n),
        reserved_for(m, data, asset, index, cluster_size, p, n, new_data),
        faithful(m, ctx, data.chunks, f, asset),
    ensures
        faithful(n, ctx, new_data.chunks, f, asset),
{
    reveal(request_outcome);
    reveal(faithful);
    lemma_resident(m, asset, index);
    assert forall|i: int| #[trigger] is_ready(n, i, asset) implies {
        &&& is_ready(m, i, asset)
        &&& n.chunks[i].backing == m.chunks[i].backing
        &&& n.chunks[i].index == m.chunks[i].index
        &&& new_data.chunks.dom().contains(n.chunks[i].backing)
        &&& held_bytes(n, new_data.chunks, i) == held_bytes(m, data.chunks, i)
    } by {
        let q = n.chunks[i].backing;
        if m.requestable(asset) && m.resident(asset, index) is None {
            let prot = m.protection(asset);
            if p == 0 {
                let x = m.protecting(prot);
                let y = n.protecting(prot);
                assert(only_evicted(x, y));
                assert(kept_or_evicted(x.chunks[i], y.chunks[i], x.protect));
            } else {
                let size = cluster_size as usize;
                let k = choose|k: int|
                    #[trigger] newly_reserved(m, n, k, p, asset, index, size, false, prot);
                assert(i != k);
                assert(kept_or_evicted(m.chunks[i], n.chunks[i], prot));
                assert(n.chunks[k].backing == p);
                assert(q != p);
            }
        }
        assert(is_ready(m, i, asset));
        assert(data.chunks.dom().contains(q));
        assert(new_data.chunks[q] == data.chunks[q]);
    }
}

/// The chunk at `q` is that of cluster `index` of `asset`, and is ready.
pub open spec fn ready_there(m: Model, q: usize, asset: u32, index: u32) -> bool {
    &&& m.slot_at(q) is Some
    &&& is_ready(m, m.slot_at(q)->0, asset)
    &&& m.chunks[m.slot_at(q)->0].index == index
}

/// It stays so while nothing moves.
proof fn lemma_stays(m: Model, n: Model, q: usize, asset: u32, index: u32)
    requires
        same_places(m, n),
        forall|i: int|
            0 <= i < m.chunks.len() && m.chunks[i].ready ==> (#[trigger] n.chunks[i]).ready,
        ready_there(m, q, asset, index),
    ensures
        ready_there(n, q, asset, index),
{
    lemma_same_slot(m, n, q);
}

/// It stays so through a reservation, while it is leased.
proof fn lemma_reserve_stays(
    m: Model,
    asset: u32,
    index: u32,
    size: usize,
    p: usize,
    n: Model,
    q: usize,
    held: u32,
)
    requires
        m.consistent(),
        unique_addresses(m),
        unique_addresses(n),
        request_outcome(m, asset, index, size, p, n),
        leases_at(m, q) >= 1,
        ready_there(m, q, asset, held),
    ensures
        ready_there(n, q, asset, held),
{
    reveal(request_outcome);
    lemma_resident(m, asset, index);
    lemma_slot_at(m, q);
    let i = m.slot_at(q)->0;
    if m.requestable(asset) && m.resident(asset, index) is None {
        let prot = m.protection(asset);
        if p == 0 {
            let x = m.protecting(prot);
            let y = n.protecting(prot);
            assert(only_evicted(x, y));
            assert(kept_or_evicted(x.chunks[i], y.chunks[i], x.protect));
        } else {
            let k = choose|k: int|
                #[trigger] newly_reserved(m, n, k, p, asset, index, size, false, prot);
            assert(i != k);
            assert(kept_or_evicted(m.chunks[i], n.chunks[i], prot));
        }
    }
    assert(n.chunks[i].backing == q);
    lemma_leases_at(n, i);
}

/// Making a cluster resident leaves shown what was shown, and shows the cluster. A ready chunk
/// that is leased, at `q`, stays where it is.
pub proof fn acquired_clusters_show_the_file<C: SampleConvert>(
    m: Model,
    contexts: Map<u32, FillContext>,
    data: StreamView,
    asset: u32,
    index: u32,
    cluster_size: u32,
    r: usize,
    n: Model,
    new_data: StreamView,
    f: spec_fn(u32, int) -> u8,
    q: usize,
    held: u32,
)
    requires
        healthy(m, data),
        m.unique_keys(),
        light(m, 5),
        sound(new_data.memory),
        plain::<C>(),
        tells(new_data.asked, f),
        contexts.dom().contains(asset),
        regular(contexts[asset]),
        asset != NONE,
        faithful(m, contexts[asset], data.chunks, f, asset),
        acquire_fill_outcome::<C>(
            m,
            contexts,
            data,
            asset,
            index,
            cluster_size,
            r,
            n,
            new_data,
        ),
    ensures
        n.unique_keys(),
        faithful(n, contexts[asset], new_data.chunks, f, asset),
        r != 0 ==> ready_there(n, r, asset, index),
        leases_at(m, q) >= 1 && ready_there(m, q, asset, held) ==> ready_there(n, q, asset, held),
{
    let ctx = contexts[asset];
    acquiring_takes_one_lease::<C>(
        m,
        contexts,
        data,
        asset,
        index,
        cluster_size,
        r,
        n,
        new_data,
    );
    let a = m.try_acquire(asset, index);
    lemma_apart(m, data, new_data.memory);
    assert(light(m, 1)) by {
        assert forall|x: usize| #[trigger] leases_at(m, x) <= u32::MAX - 1 by {
            assert(leases_at(m, x) <= u32::MAX - 5);
        }
    }
    lemma_try_acquire_leases(m, asset, index);
    lemma_quiet_unique(m, a);
    lemma_quiet_faithful(m, a, ctx, data.chunks, f, asset);
    lemma_still_booked(m, a, data);
    lemma_resident(m, asset, index);
    let keep = leases_at(m, q) >= 1 && ready_there(m, q, asset, held);
    if keep {
        lemma_stays(m, a, q, asset, held);
        lemma_slot_at(m, q);
    }
    reveal(acquire_fill_outcome);
    if m.try_acquire_result(asset, index) != 0 {
        let i = m.resident(asset, index)->0;
        lemma_leases_at(a, i);
        assert(is_ready(a, i, asset));
    } else {
        let (p, b, mid) = choose|p: usize, b: Model, mid: StreamView|
            {
                &&& #[trigger] reserved_for(a, data, asset, index, cluster_size, p, b, mid)
                &&& if p == 0 {
                    r == 0 && n == b && new_data == mid
                } else {
                    filled_or_released::<C>(b, contexts, mid, p, r, n, new_data)
                }
            };
        if p == 0 {
            lemma_reserve_faithful(a, ctx, data, asset, index, cluster_size, p, b, mid, f);
            requested_chunks_are_found(a, asset, index, cluster_size as usize, p, b);
            if keep {
                lemma_reserve_stays(a, asset, index, cluster_size as usize, p, b, q, held);
            }
        } else {
            lemma_acquire_missing::<C>(
                m,
                a,
                contexts,
                data,
                asset,
                index,
                cluster_size,
                p,
                b,
                mid,
                r,
                n,
                new_data,
                f,
                q,
                held,
            );
        }
    }
}

/// The same, for a cluster that is reserved at `p` and filled.
proof fn lemma_acquire_missing<C: SampleConvert>(
    m: Model,
    a: Model,
    contexts: Map<u32, FillContext>,
    data: StreamView,
    asset: u32,
    index: u32,
    cluster_size: u32,
    p: usize,
    b: Model,
    mid: StreamView,
    r: usize,
    n: Model,
    new_data: StreamView,
    f: spec_fn(u32, int) -> u8,
    q: usize,
    held: u32,
)
    requires
        m.consistent(),
        a == m.try_acquire(asset, index),
        m.try_acquire_result(asset, index) == 0,
        healthy(a, data),
        unique_addresses(a),
        a.unique_keys(),
        light(m, 5),
        as_many(m, a),
        sound(new_data.memory),
        plain::<C>(),
        tells(new_data.asked, f),
        contexts.dom().contains(asset),
        regular(contexts[asset]),
        asset != NONE,
        faithful(a, contexts[asset], data.chunks, f, asset),
        reserved_for(a, data, asset, index, cluster_size, p, b, mid),
        p != 0,
        filled_or_released::<C>(b, contexts, mid, p, r, n, new_data),
    ensures
        n.unique_keys(),
        faithful(n, contexts[asset], new_data.chunks, f, asset),
        r != 0 ==> ready_there(n, r, asset, index),
        leases_at(m, q) >= 1 && ready_there(a, q, asset, held) ==> ready_there(n, q, asset, held),
{
    let ctx = contexts[asset];
    let (active, filled_it, c) = choose|active: bool, filled_it: bool, c: Model|
        {
            &&& #[trigger] fill_now_outcome::<C>(
                b,
                contexts,
                asked_active(mid, active),
                p,
                active,
                filled_it,
                c,
                new_data,
            )
            &&& if filled_it {
                r == p && n == c.mark_ready(p)
            } else {
                r == 0 && n == c.release(p)
            }
        };
    let mid2 = asked_active(mid, active);
    lemma_fill_memory::<C>(b, contexts, mid2, p, active, filled_it, c, new_data);
    assert(leases_at(a, 0) == 0 && leases_at(b, 0) == 0 && leases_at(c, 0) == 0);
    assert(light(a, 1)) by {
        assert forall|x: usize| #[trigger] leases_at(a, x) <= u32::MAX - 1 by {
            assert(leases_at(m, x) <= u32::MAX - 5);
        }
    }
    lemma_reserve(a, data, asset, index, cluster_size, p, b, mid);
    assert(light(b, 3)) by {
        assert forall|x: usize| #[trigger] leases_at(b, x) <= u32::MAX - 3 by {
            assert(leases_at(m, x) <= u32::MAX - 5);
            assert(x != 0 ==> leases_at(b, x) == leases_at(a, x) + one_if(x == p));
            assert(x != 0 ==> leases_at(a, x) == leases_at(m, x));
        }
    }
    lemma_reserve_faithful(a, ctx, data, asset, index, cluster_size, p, b, mid, f);
    requested_chunks_are_found(a, asset, index, cluster_size as usize, p, b);
    let i = b.resident(asset, index)->0;
    lemma_resident(b, asset, index);
    lemma_leases_at(b, i);
    assert(b.slot_at(p) == Some(i));
    lemma_new_unready(m, a, asset, index, cluster_size as usize, p, b, i);
    fills_keep_leases::<C>(b, contexts, mid2, p, active, filled_it, c, new_data);
    lemma_fill_step::<C>(
        b,
        contexts,
        mid2,
        p,
        active,
        filled_it,
        c,
        new_data,
        f,
        asset,
        index,
    );
    lemma_quiet_unique(b, c);
    lemma_same_slot(b, c, p);
    let keep = leases_at(m, q) >= 1 && ready_there(a, q, asset, held);
    if keep {
        lemma_slot_at(a, q);
        assert(leases_at(a, q) == leases_at(m, q));
        lemma_reserve_stays(a, asset, index, cluster_size as usize, p, b, q, held);
        lemma_fill_ready::<C>(b, contexts, mid2, p, active, filled_it, c, new_data);
        lemma_stays(b, c, q, asset, held);
    }
    if filled_it {
        lemma_same_leases(c, p, 0, 0);
        lemma_same_slot(c, n, p);
        assert(quiet(c, n));
    } else {
        assert(leases_at(c, p) == leases_at(a, p) + 1);
        lemma_slot_at(a, p);
        lemma_release_leases(c, p);
    }
    lemma_quiet_unique(c, n);
    lemma_quiet_faithful(c, n, ctx, new_data.chunks, f, asset);
    if keep {
        lemma_stays(c, n, q, asset, held);
    }
}

/// A chunk that was reserved because it was not ready is not ready.
proof fn lemma_new_unready(
    m: Model,
    a: Model,
    asset: u32,
    index: u32,
    size: usize,
    p: usize,
    b: Model,
    i: int,
)
    requires
        m.consistent(),
        a == m.try_acquire(asset, index),
        a.consistent(),
        a.unique_keys(),
        m.try_acquire_result(asset, index) == 0,
        request_outcome(a, asset, index, size, p, b),
        p != 0,
        unique_addresses(b),
        0 <= i < b.chunks.len(),
        b.chunks[i].backing == p,
    ensures
        !b.chunks[i].ready,
{
    reveal(request_outcome);
    lemma_resident(m, asset, index);
    lemma_resident(a, asset, index);
    if a.resident(asset, index) is Some {
        let k = a.resident(asset, index)->0;
        assert(b.chunks[k].backing == p);
        if m.resident(asset, index) is Some {
            let l = m.resident(asset, index)->0;
            assert(a.chunks[l].holds(asset, index));
            assert(a.keyed(k));
        } else {
            assert(a.chunks == m.chunks);
        }
    } else {
        let prot = a.protection(asset);
        let k = choose|k: int|
            #[trigger] newly_reserved(a, b, k, p, asset, index, size, false, prot);
        assert(b.chunks[k].backing == p);
    }
}

/// A fill makes nothing unready.
proof fn lemma_fill_ready<C: SampleConvert>(
    m: Model,
    contexts: Map<u32, FillContext>,
    a: StreamView,
    p: usize,
    awaited: bool,
    r: bool,
    n: Model,
    b: StreamView,
)
    requires
        m.consistent(),
        unique_addresses(m),
        light(m, 3),
        fill_now_outcome::<C>(m, contexts, a, p, awaited, r, n, b),
    ensures
        same_places(m, n),
        forall|i: int|
            0 <= i < m.chunks.len() && m.chunks[i].ready ==> (#[trigger] n.chunks[i]).ready,
{
    reveal(fill_now_outcome);
    let s0 = m.searched_ptr(p);
    lemma_same_leases(m, p, 0, 0);
    lemma_same_leases(s0, p, 0, 0);
    if fill_descriptor(m, contexts, a.chunks, p).ok && deferred(a, b) {
        lemma_queued(m, p, b.asked.last()->priority);
    } else if fill_descriptor(m, contexts, a.chunks, p).ok {
        let (read_ok, bytes) = choose|read_ok: bool, bytes: Seq<u8>| #[trigger]
            fill_outcome::<C>(m, contexts, a.chunks, p, read_ok, bytes, r, n, b.chunks);
        let mid = choose|mid: Map<usize, StoredChunk>| #[trigger]
            read_into(a.chunks, p, bytes, mid) && finish_outcome::<C>(
                s0,
                contexts,
                mid,
                p,
                read_ok,
                r,
                n,
                b.chunks,
            );
        if r {
            lemma_same_light(m, s0);
            finished_fills_are_ready::<C>(s0, contexts, mid, p, n, b.chunks);
        }
    }
}

/// What a reader holds is ready.
pub open spec fn holds_ready(v: ReaderView, m: Model) -> bool {
    v.held is Some ==> ready_there(m, held_addr(v.held), v.asset, (v.held->0).1)
}

/// The conditions under which what is read is the file: the conversion is plain, the card
/// tells what is in the files, no memory is given twice, and what is ready shows the file.
pub open spec fn truthful<C: SampleConvert>(
    m: Model,
    contexts: Map<u32, FillContext>,
    data: StreamView,
    end: StreamView,
    f: spec_fn(u32, int) -> u8,
    asset: u32,
) -> bool {
    &&& healthy(m, data)
    &&& m.unique_keys()
    &&& plain::<C>()
    &&& sound(end.memory)
    &&& tells(end.asked, f)
    &&& contexts.dom().contains(asset)
    &&& regular(contexts[asset])
    &&& asset != NONE
    &&& faithful(m, contexts[asset], data.chunks, f, asset)
}

/// Giving back what a reader holds leaves shown what was shown.
proof fn lemma_release_shows(
    m: Model,
    data: StreamView,
    held: Option<(usize, u32)>,
    ctx: FillContext,
    f: spec_fn(u32, int) -> u8,
    asset: u32,
    q: usize,
    index: u32,
)
    requires
        m.consistent(),
        m.unique_keys(),
        unique_addresses(m),
        held is Some ==> leases_at(m, held_addr(held)) >= 1,
        faithful(m, ctx, data.chunks, f, asset),
    ensures
        released_held(m, held).unique_keys(),
        faithful(released_held(m, held), ctx, data.chunks, f, asset),
        ready_there(m, q, asset, index) ==> ready_there(released_held(m, held), q, asset, index),
{
    match held {
        Some((p, _)) => {
            lemma_release_leases(m, p);
            lemma_quiet_unique(m, m.release(p));
            lemma_quiet_faithful(m, m.release(p), ctx, data.chunks, f, asset);
            if ready_there(m, q, asset, index) {
                lemma_stays(m, m.release(p), q, asset, index);
            }
        },
        None => {},
    }
}

/// The first step of a window shows its cluster.
proof fn lemma_pin_shows<C: SampleConvert>(
    v: ReaderView,
    m: Model,
    contexts: Map<u32, FillContext>,
    data: StreamView,
    cluster: u32,
    q: usize,
    n: Model,
    new_data: StreamView,
    end: StreamView,
    f: spec_fn(u32, int) -> u8,
)
    requires
        truthful::<C>(m, contexts, data, end, f, v.asset),
        light(m, 6),
        holds(v, m),
        holds_ready(v, m),
        pin_step::<C>(v, m, contexts, data, cluster, q, n, new_data),
        goes_on(new_data.memory, end.memory),
        goes_on(new_data.asked, end.asked),
    ensures
        n.unique_keys(),
        faithful(n, contexts[v.asset], new_data.chunks, f, v.asset),
        q != 0 ==> ready_there(n, q, v.asset, cluster),
{
    if !holds_cluster(v, cluster) {
        lemma_sound_before(new_data.memory, end.memory);
        lemma_tells_before(new_data.asked, end.asked, f);
        reveal(pinned_anew);
        let cs = v.geometry.cluster_size_bytes;
        let b = choose|b: Model| #[trigger]
            acquire_fill_outcome::<C>(
                m,
                contexts,
                data,
                v.asset,
                cluster,
                cs,
                q,
                b,
                new_data,
            ) && n == released_held(b, v.held);
        assert(light(m, 5)) by {
            assert forall|x: usize| #[trigger] leases_at(m, x) <= u32::MAX - 5 by {
                assert(leases_at(m, x) <= u32::MAX - 6);
            }
        }
        acquiring_takes_one_lease::<C>(
            m,
            contexts,
            data,
            v.asset,
            cluster,
            cs,
            q,
            b,
            new_data,
        );
        acquired_clusters_show_the_file::<C>(
            m,
            contexts,
            data,
            v.asset,
            cluster,
            cs,
            q,
            b,
            new_data,
            f,
            0,
            0,
        );
        if v.held is Some {
            let h = held_addr(v.held);
            assert(leases_at(m, 0) == 0);
            assert(leases_at(b, h) == leases_at(m, h) + one_if(h == q));
        }
        lemma_release_shows(
            b,
            new_data,
            v.held,
            contexts[v.asset],
            f,
            v.asset,
            q,
            cluster,
        );
    }
}

/// Visiting a cluster leaves shown what was shown, and a ready chunk that is leased, at `q`,
/// where it is. The cluster is ready then, if the visit says so.
proof fn lemma_visit_shows<C: SampleConvert>(
    m: Model,
    contexts: Map<u32, FillContext>,
    data: StreamView,
    asset: u32,
    index: u32,
    cluster_size: u32,
    r: bool,
    n: Model,
    new_data: StreamView,
    f: spec_fn(u32, int) -> u8,
    q: usize,
    held: u32,
)
    requires
        truthful::<C>(m, contexts, data, new_data, f, asset),
        light(m, 5),
        visited::<C>(m, contexts, data, asset, index, cluster_size, r, n, new_data),
        leases_at(m, q) >= 1,
        ready_there(m, q, asset, held),
    ensures
        n.unique_keys(),
        faithful(n, contexts[asset], new_data.chunks, f, asset),
        ready_there(n, q, asset, held),
        r ==> exists|k: int| #[trigger] is_ready(n, k, asset) && n.chunks[k].index == index,
{
    reveal(visited);
    let (p, b) = choose|p: usize, b: Model|
        {
            &&& #[trigger] acquire_fill_outcome::<C>(
                m,
                contexts,
                data,
                asset,
                index,
                cluster_size,
                p,
                b,
                new_data,
            )
            &&& r == (p != 0)
            &&& n == (if p != 0 {
                b.release(p)
            } else {
                b
            })
        };
    acquiring_takes_one_lease::<C>(m, contexts, data, asset, index, cluster_size, p, b, new_data);
    acquired_clusters_show_the_file::<C>(
        m,
        contexts,
        data,
        asset,
        index,
        cluster_size,
        p,
        b,
        new_data,
        f,
        q,
        held,
    );
    if p != 0 {
        lemma_slot_at(m, p);
        assert(leases_at(b, p) == leases_at(m, p) + 1);
        let ctx = contexts[asset];
        lemma_release_shows(b, new_data, Some((p, index)), ctx, f, asset, q, held);
        lemma_release_shows(b, new_data, Some((p, index)), ctx, f, asset, p, index);
        assert(is_ready(n, n.slot_at(p)->0, asset));
    }
}

/// What a window leaves: what was shown is shown, the reader holds its cluster ready, and the
/// next one is ready if a frame that is served reaches into it.
proof fn lemma_window_shows<C: SampleConvert>(
    v: ReaderView,
    m: Model,
    contexts: Map<u32, FillContext>,
    data: StreamView,
    r: Window,
    w: ReaderView,
    n: Model,
    new_data: StreamView,
    f: spec_fn(u32, int) -> u8,
)
    requires
        truthful::<C>(m, contexts, data, new_data, f, v.asset),
        light(m, 6),
        holds(v, m),
        holds_ready(v, m),
        window_outcome::<C>(v, m, contexts, data, r, w, n, new_data),
    ensures
        truthful::<C>(n, contexts, new_data, new_data, f, v.asset),
        holds(w, n),
        holds_ready(w, n),
        r.frame_count > 0 ==> match window_plan(v.geometry, v.current_frame, v.direction) {
            WindowPlan::Serve { cluster, byte_offset, frame_count, needs_next } => {
                &&& ready_there(n, r.chunk, v.asset, cluster)
                &&& exists|next: bool|
                    {
                        &&& Some((r.byte_offset, r.frame_count)) == #[trigger] window_of(
                            v.geometry,
                            byte_offset,
                            frame_count,
                            needs_next,
                            next,
                            v.direction,
                        )
                        &&& needs_next && next ==> exists|k: int| #[trigger]
                            is_ready(n, k, v.asset) && n.chunks[k].index == cluster + 1
                    }
            },
            _ => false,
        },
{
    windows_balance_their_leases::<C>(v, m, contexts, data, r, w, n, new_data);
    reveal(window_outcome);
    match window_plan(v.geometry, v.current_frame, v.direction) {
        WindowPlan::Serve { cluster, byte_offset, frame_count, needs_next } => {
            let (q, b, mid, next) = choose|q: usize, b: Model, mid: StreamView, next: bool|
                {
                    &&& #[trigger] pin_step::<C>(v, m, contexts, data, cluster, q, b, mid)
                    &&& #[trigger] serve_step::<C>(
                        v,
                        b,
                        contexts,
                        mid,
                        q,
                        needs_next,
                        cluster,
                        next,
                        w.held,
                        n,
                        new_data,
                    )
                    &&& r == served_window(
                        v,
                        q,
                        byte_offset,
                        frame_count,
                        needs_next,
                        next,
                        new_data.chunks,
                    )
                };
            lemma_serve_memory::<C>(
                v,
                b,
                contexts,
                mid,
                q,
                needs_next,
                cluster,
                next,
                w.held,
                n,
                new_data,
            );
            lemma_plan(v.geometry, v.current_frame, v.direction);
            lemma_pin::<C>(v, m, contexts, data, cluster, q, b, mid, new_data);
            lemma_pin_shows::<C>(v, m, contexts, data, cluster, q, b, mid, new_data, f);
            if q != 0 && needs_next {
                assert(light(b, 5)) by {
                    assert forall|x: usize| #[trigger] leases_at(b, x) <= u32::MAX - 5 by {
                        assert(leases_at(b, 0) == 0);
                        if x != 0 {
                            assert(leases_at(b, x) == leases_at(m, x) + one_if(x == q) - one_if(
                                x == held_addr(v.held),
                            ));
                            assert(leases_at(m, x) <= u32::MAX - 6);
                        }
                    }
                }
                lemma_visit_shows::<C>(
                    b,
                    contexts,
                    mid,
                    v.asset,
                    (cluster + 1) as u32,
                    v.geometry.cluster_size_bytes,
                    next,
                    n,
                    new_data,
                    f,
                    q,
                    cluster,
                );
            }
        },
        _ => {},
    }
}

/// The file is addressed in 31 bits at `frame`, and two clusters on.
pub open spec fn in_reach(ctx: FillContext, frame: int) -> bool {
    let geo = context_geometry(ctx);
    &&& geo.audio_data_start_bytes + frame * stride(geo) + 2 * ctx.cluster_size < 0x8000_0000
    &&& geo.length_known() ==> geo.end() < 0x8000_0000
}

/// Where the clusters of a window at `frame` are in the file, and how much of them is read.
proof fn lemma_window_place(ctx: FillContext, frame: u64, direction: i8)
    requires
        regular(ctx),
        0 < stride(context_geometry(ctx)),
        in_reach(ctx, frame as int),
    ensures
        ({
            let geo = context_geometry(ctx);
            let cs = ctx.cluster_size as int;
            let pos = geo.audio_data_start_bytes + frame * stride(geo);
            match window_plan(geo, frame, direction) {
                WindowPlan::Serve { cluster, byte_offset, frame_count, needs_next } => {
                    &&& pos == frame_pos(frame, geo)
                    &&& pos == cluster * cs + frame_offset(frame, geo)
                    &&& byte_offset == frame_offset(frame, geo)
                    &&& cluster == frame_cluster(frame, geo)
                    &&& place(ctx, cluster) == cluster * cs
                    &&& filled(ctx, cluster) >= geo.resident(cluster as int)
                    &&& needs_next ==> {
                        &&& cluster < u32::MAX
                        &&& geo.resident(cluster as int) == cs
                        &&& place(ctx, (cluster + 1) as u32) == cluster * cs + cs
                    }
                },
                _ => true,
            }
        }),
{
    let geo = context_geometry(ctx);
    let cs = ctx.cluster_size as int;
    let st = stride(geo);
    let pos = geo.audio_data_start_bytes + frame * st;
    vstd::arithmetic::power2::lemma_pow2_pos(ctx.cluster_size_magnitude as nat);
    assert(0 <= frame * st) by (nonlinear_arith)
        requires
            0 <= frame,
            0 < st,
    ;
    assert(pos == frame_pos(frame, geo));
    vstd::arithmetic::div_mod::lemma_fundamental_div_mod(pos, cs);
    vstd::arithmetic::div_mod::lemma_mod_bound(pos, cs);
    let c = pos / cs;
    vstd::arithmetic::div_mod::lemma_div_pos_is_pos(pos, cs);
    assert(c * cs == cs * c) by (nonlinear_arith);
    assert(c <= c * cs) by (nonlinear_arith)
        requires
            0 <= c,
            1 <= cs,
    ;
    assert((c + 1) * cs == c * cs + cs) by (nonlinear_arith);
    lemma_plan(geo, frame, direction);
    let fill = fill_geometry(ctx);
    fill_reads_what_is_resident(fill, geo, c as u32);
    fill_reads_what_is_resident(fill, geo, (c + 1) as u32);
}

/// Each frame of a window is what is in the file at its place, for frames of up to eight
/// bytes, while what is ready shows the file; and that stays so.
pub proof fn windows_show_the_file<C: SampleConvert>(
    v: ReaderView,
    m: Model,
    contexts: Map<u32, FillContext>,
    data: StreamView,
    r: Window,
    w: ReaderView,
    n: Model,
    new_data: StreamView,
    f: spec_fn(u32, int) -> u8,
)
    requires
        truthful::<C>(m, contexts, data, new_data, f, v.asset),
        light(m, 6),
        holds(v, m),
        holds_ready(v, m),
        v.geometry == context_geometry(contexts[v.asset]),
        0 < stride(v.geometry) <= 8,
        in_reach(contexts[v.asset], v.current_frame as int),
        window_outcome::<C>(v, m, contexts, data, r, w, n, new_data),
    ensures
        truthful::<C>(n, contexts, new_data, new_data, f, v.asset),
        holds(w, n),
        holds_ready(w, n),
        r.frame_count > 0 ==> {
            let st = stride(v.geometry);
            let cs = v.geometry.cluster_size_bytes;
            let first = if v.direction >= 0 {
                r.byte_offset as int
            } else {
                r.byte_offset - (r.frame_count - 1) * st
            };
            let last = first + r.frame_count * st;
            let bytes = new_data.chunks[r.chunk].bytes@;
            &&& new_data.chunks.dom().contains(r.chunk)
            &&& 0 <= first
            &&& last <= bytes.len()
            &&& forall|j: int|
                first <= j < last ==> #[trigger] bytes[j] == f(
                    contexts[v.asset].efatfs_handle,
                    frame_cluster(v.current_frame, v.geometry) * cs + j,
                )
        },
{
    lemma_window_shows::<C>(v, m, contexts, data, r, w, n, new_data, f);
    let ctx = contexts[v.asset];
    let geo = v.geometry;
    let cs = ctx.cluster_size as int;
    if r.frame_count > 0 {
        match window_plan(geo, v.current_frame, v.direction) {
            WindowPlan::Serve { cluster, byte_offset, frame_count, needs_next } => {
                let next = choose|next: bool|
                    {
                        &&& Some((r.byte_offset, r.frame_count)) == #[trigger] window_of(
                            geo,
                            byte_offset,
                            frame_count,
                            needs_next,
                            next,
                            v.direction,
                        )
                        &&& needs_next && next ==> exists|k: int| #[trigger]
                            is_ready(n, k, v.asset) && n.chunks[k].index == cluster + 1
                    };
                lemma_window_place(ctx, v.current_frame, v.direction);
                window_stays_in_its_chunk(geo, v.current_frame, v.direction, next);
                reveal(faithful);
                lemma_slot_at(n, r.chunk);
                let i = n.slot_at(r.chunk)->0;
                assert(is_ready(n, i, v.asset));
                let bytes = new_data.chunks[r.chunk].bytes@;
                assert(held_bytes(n, new_data.chunks, i) == bytes);
                assert(shows(ctx, cluster, bytes, f));
                if needs_next && next {
                    let k = choose|k: int| #[trigger]
                        is_ready(n, k, v.asset) && n.chunks[k].index == cluster + 1;
                    assert(is_ready(n, i, v.asset) && is_ready(n, k, v.asset));
                    assert(shows_slack(ctx, cluster, bytes, f));
                }
                let st = stride(geo);
                let first = if v.direction >= 0 {
                    r.byte_offset as int
                } else {
                    r.byte_offset - (r.frame_count - 1) * st
                };
                assert forall|j: int| first <= j < first + r.frame_count * st implies #[trigger]
                    bytes[j] == f(ctx.efatfs_handle, cluster * cs + j) by {
                    if j >= filled(ctx, cluster) {
                        let d = j - cs;
                        assert(bytes[ctx.cluster_size + d] == f(
                            ctx.efatfs_handle,
                            place(ctx, (cluster + 1) as u32) + d,
                        ));
                    }
                }
            },
            _ => {},
        }
    }
}

/// A cursor that moves forward over frames of a window is not held back by the end of the
/// audio.
proof fn lemma_advance_within(ctx: FillContext, frame: u64, direction: i8, next: bool, k: u32)
    requires
        regular(ctx),
        0 < stride(context_geometry(ctx)) <= 8,
        in_reach(ctx, frame as int),
        direction == 1,
        match window_plan(context_geometry(ctx), frame, direction) {
            WindowPlan::Serve { cluster, byte_offset, frame_count, needs_next } => match window_of(
                context_geometry(ctx),
                byte_offset,
                frame_count,
                needs_next,
                next,
                direction,
            ) {
                Some((_, count)) => k <= count,
                None => false,
            },
            _ => false,
        },
        frame + k <= u64::MAX,
    ensures
        advanced(context_geometry(ctx), frame, direction, k) == frame + k,
{
    let geo = context_geometry(ctx);
    let st = stride(geo);
    assert(k * direction == k) by (nonlinear_arith)
        requires
            direction == 1,
    ;
    if geo.length_known() {
        lemma_window_place(ctx, frame, direction);
        lemma_plan(geo, frame, direction);
        windows_serve_whole_frames(geo, frame, direction);
    }
}

/// A read under way, at `a`: what it has copied so far is what is in the file, from
/// `start_frame` on.
spec fn reading<C: SampleConvert>(
    contexts: Map<u32, FillContext>,
    end: StreamView,
    f: spec_fn(u32, int) -> u8,
    asset: u32,
    start_frame: u64,
    a: ReadState,
) -> bool {
    let ctx = contexts[asset];
    let geo = context_geometry(ctx);
    let st = stride(geo);
    &&& truthful::<C>(a.tables, contexts, a.data, end, f, asset)
    &&& a.reader.asset == asset
    &&& a.reader.geometry == geo
    &&& a.reader.direction == 1
    &&& a.reader.current_frame == start_frame + a.written
    &&& holds_ready(a.reader, a.tables)
    &&& 0 <= a.written
    &&& a.written * st <= a.dest.len()
    &&& forall|k: int|
        0 <= k < a.written * st ==> #[trigger] a.dest[k] == f(
            ctx.efatfs_handle,
            geo.audio_data_start_bytes + start_frame * st + k,
        )
}

/// The file is addressed in 31 bits as far as a read goes, in frames of up to eight bytes.
pub open spec fn readable(ctx: FillContext, start_frame: u64, num_frames: u32) -> bool {
    let geo = context_geometry(ctx);
    &&& 0 < stride(geo) <= 8
    &&& in_reach(ctx, start_frame + num_frames)
}

proof fn lemma_reach(ctx: FillContext, start_frame: u64, num_frames: u32, frame: int)
    requires
        readable(ctx, start_frame, num_frames),
        frame <= start_frame + num_frames,
    ensures
        in_reach(ctx, frame),
        start_frame + num_frames <= u64::MAX,
{
    let st = stride(context_geometry(ctx));
    let most = start_frame + num_frames;
    assert(frame * st <= most * st) by (nonlinear_arith)
        requires
            frame <= most,
            0 < st,
    ;
    assert(most <= most * st) by (nonlinear_arith)
        requires
            0 <= most,
            1 <= st,
    ;
}

/// What one copy adds to a read.
proof fn lemma_copied(
    dest: Seq<u8>,
    written: int,
    st: int,
    n: int,
    src: Seq<u8>,
    from: int,
    g: spec_fn(int) -> u8,
)
    requires
        0 <= written,
        0 < n,
        0 < st,
        0 <= from,
        (written + n) * st <= dest.len(),
        from + n * st <= src.len(),
        forall|k: int| 0 <= k < written * st ==> #[trigger] dest[k] == g(k),
        forall|j: int|
            from <= j < from + n * st ==> #[trigger] src[j] == g(written * st + (j - from)),
    ensures
        copied(dest, written * st, src, from, n * st).len() == dest.len(),
        forall|k: int|
            0 <= k < (written + n) * st ==> #[trigger] copied(
                dest,
                written * st,
                src,
                from,
                n * st,
            )[k] == g(k),
{
    assert((written + n) * st == written * st + n * st) by (nonlinear_arith);
    assert(0 <= written * st) by (nonlinear_arith)
        requires
            0 <= written,
            0 < st,
    ;
    let c = copied(dest, written * st, src, from, n * st);
    assert forall|k: int| 0 <= k < (written + n) * st implies #[trigger] c[k] == g(k) by {
        if k >= written * st {
            let j = from + k - written * st;
            assert(src[j] == g(written * st + (j - from)));
        } else {
            assert(dest[k] == g(k));
        }
    }
}

/// One step of a read adds what is in the file.
proof fn lemma_step_reading<C: SampleConvert>(
    m: Model,
    contexts: Map<u32, FillContext>,
    end: StreamView,
    f: spec_fn(u32, int) -> u8,
    asset: u32,
    start_frame: u64,
    num_frames: u32,
    a: ReadState,
    b: ReadState,
)
    requires
        light(m, 8),
        balanced(m, a),
        reading::<C>(contexts, end, f, asset, start_frame, a),
        readable(contexts[asset], start_frame, num_frames),
        read_step::<C>(contexts, num_frames as int, a, b),
        goes_on(b.data.memory, end.memory),
        goes_on(b.data.asked, end.asked),
    ensures
        reading::<C>(contexts, end, f, asset, start_frame, b),
{
    lemma_balanced_light(m, a);
    lemma_sound_before(b.data.memory, end.memory);
    lemma_tells_before(b.data.asked, end.asked, f);
    let ctx = contexts[asset];
    let geo = context_geometry(ctx);
    let st = stride(geo);
    reveal(read_step);
    let (w, v, x) = choose|w: Window, v: ReaderView, x: Model|
        {
            let n = frames_of(a, w, b.data.chunks, num_frames as int);
            &&& #[trigger] window_outcome::<C>(
                a.reader,
                a.tables,
                contexts,
                a.data,
                w,
                v,
                x,
                b.data,
            )
            &&& a.written < num_frames
            &&& n > 0
            &&& b.dest == copied(
                a.dest,
                a.written * st,
                b.data.chunks[w.chunk].bytes@,
                w.byte_offset as int,
                n * st,
            )
            &&& b.written == a.written + n
            &&& b.reader == advanced_reader(v, n as u32)
            &&& b.tables == (if b.reader.held == v.held {
                x
            } else {
                released_held(x, v.held)
            })
        };
    let n = frames_of(a, w, b.data.chunks, num_frames as int);
    let frame = a.reader.current_frame;
    lemma_reach(ctx, start_frame, num_frames, frame as int);
    windows_show_the_file::<C>(a.reader, a.tables, contexts, a.data, w, v, x, b.data, f);
    lemma_window_shows::<C>(a.reader, a.tables, contexts, a.data, w, v, x, b.data, f);
    lemma_plan(geo, frame, 1);
    assert(v.geometry == geo && v.current_frame == frame && v.direction == 1 && v.asset == asset)
        by {
        reveal(window_outcome);
    }
    let room = a.dest.len() - a.written * st;
    lemma_whole(room, st);
    assert(n <= w.frame_count && n <= num_frames - a.written && n <= room / st);
    match window_plan(geo, frame, 1) {
        WindowPlan::Serve { cluster, byte_offset, frame_count, needs_next } => {
            let next = choose|next: bool| Some((w.byte_offset, w.frame_count)) == #[trigger]
                window_of(geo, byte_offset, frame_count, needs_next, next, 1);
            lemma_window_place(ctx, frame, 1);
            lemma_advance_within(ctx, frame, 1, next, n as u32);
            assert(w.byte_offset == byte_offset);
        },
        _ => {},
    }
    let from = w.byte_offset as int;
    let bytes = b.data.chunks[w.chunk].bytes@;
    assert(n * st <= w.frame_count * st && n * st <= (room / st) * st) by (nonlinear_arith)
        requires
            n <= w.frame_count,
            n <= room / st,
            0 < st,
    ;
    assert((a.written + n) * st == a.written * st + n * st) by (nonlinear_arith);
    assert(frame * st == start_frame * st + a.written * st) by (nonlinear_arith)
        requires
            frame == start_frame + a.written,
    ;
    let base = geo.audio_data_start_bytes + start_frame * st;
    let g = |k: int| f(ctx.efatfs_handle, base + k);
    assert forall|j: int| from <= j < from + n * st implies #[trigger] bytes[j] == g(
        a.written * st + (j - from),
    ) by {
        assert(bytes[j] == f(
            ctx.efatfs_handle,
            frame_cluster(frame, geo) * geo.cluster_size_bytes + j,
        ));
    }
    assert forall|k: int| 0 <= k < a.written * st implies #[trigger] a.dest[k] == g(k) by {}
    lemma_copied(a.dest, a.written, st, n, bytes, from, g);
    assert forall|k: int| 0 <= k < b.written * st implies #[trigger] b.dest[k] == f(
        ctx.efatfs_handle,
        base + k,
    ) by {
        assert(b.dest[k] == g(k));
    }
    if b.reader.held != v.held {
        lemma_apart(x, b.data, end.memory);
        lemma_release_shows(x, b.data, v.held, ctx, f, asset, 0, 0);
        lemma_release_held(x, b.data, v);
    }
}

/// What was remembered at the first steps of a read is remembered at the later ones.
proof fn lemma_steps_go_on<C: SampleConvert>(
    contexts: Map<u32, FillContext>,
    num_frames: int,
    t: Seq<ReadState>,
    k: int,
)
    requires
        0 <= k < t.len(),
        read_steps::<C>(contexts, num_frames, t),
    ensures
        goes_on(t[k].data.memory, t.last().data.memory),
        goes_on(t[k].data.asked, t.last().data.asked),
    decreases t.len() - k,
{
    let a = t[k].data;
    let z = t.last().data;
    if k == t.len() - 1 {
        assert(z.memory.take(z.memory.len() as int) =~= z.memory);
        assert(z.asked.take(z.asked.len() as int) =~= z.asked);
    } else {
        reveal(read_steps);
        assert(read_step::<C>(contexts, num_frames, t[k], t[k + 1]));
        lemma_step_memory::<C>(contexts, num_frames, t[k], t[k + 1]);
        lemma_steps_go_on::<C>(contexts, num_frames, t, k + 1);
        lemma_since(a.memory, t[k + 1].data.memory, z.memory);
        lemma_since(a.asked, t[k + 1].data.asked, z.asked);
    }
}

/// The first `k` steps of a read add what is in the file.
proof fn lemma_steps_reading<C: SampleConvert>(
    m: Model,
    contexts: Map<u32, FillContext>,
    end: StreamView,
    f: spec_fn(u32, int) -> u8,
    asset: u32,
    start_frame: u64,
    num_frames: u32,
    t: Seq<ReadState>,
    k: int,
)
    requires
        light(m, 8),
        0 <= k < t.len(),
        balanced(m, t[0]),
        reading::<C>(contexts, end, f, asset, start_frame, t[0]),
        readable(contexts[asset], start_frame, num_frames),
        read_steps::<C>(contexts, num_frames as int, t),
        goes_on(t.last().data.memory, end.memory),
        goes_on(t.last().data.asked, end.asked),
    ensures
        reading::<C>(contexts, end, f, asset, start_frame, t[k]),
    decreases k,
{
    if k > 0 {
        lemma_steps_reading::<C>(
            m,
            contexts,
            end,
            f,
            asset,
            start_frame,
            num_frames,
            t,
            k - 1,
        );
        lemma_steps_go_on::<C>(contexts, num_frames as int, t, k);
        lemma_steps_go_on::<C>(contexts, num_frames as int, t, k - 1);
        lemma_since(t[k].data.memory, t.last().data.memory, end.memory);
        lemma_since(t[k].data.asked, t.last().data.asked, end.asked);
        lemma_since(t[k - 1].data.memory, t.last().data.memory, end.memory);
        lemma_steps_balance::<C>(m, contexts, num_frames as int, t, k - 1, end);
        assert(read_step::<C>(contexts, num_frames as int, t[k - 1], t[k - 1 + 1])) by {
            reveal(read_steps);
        }
        lemma_step_reading::<C>(
            m,
            contexts,
            end,
            f,
            asset,
            start_frame,
            num_frames,
            t[k - 1],
            t[k],
        );
    }
}

/// A read gives what is in the file: its frames are the file's bytes from `start_frame` on,
/// without a gap at the clusters' ends. What is ready shows the file before and after. The
/// frames have up to eight bytes in a file addressed in 31 bits, no memory is given twice, and
/// the card tells what is in the files.
pub proof fn reads_give_what_is_in_the_file<C: SampleConvert>(
    m: Model,
    contexts: Map<u32, FillContext>,
    data: StreamView,
    asset: u32,
    start_frame: u64,
    num_frames: u32,
    dest: Seq<u8>,
    r: u32,
    new_dest: Seq<u8>,
    n: Model,
    new_data: StreamView,
    f: spec_fn(u32, int) -> u8,
)
    requires
        truthful::<C>(m, contexts, data, new_data, f, asset),
        light(m, 8),
        readable(contexts[asset], start_frame, num_frames),
        read_outcome::<C>(
            m,
            contexts,
            data,
            asset,
            start_frame,
            num_frames,
            dest,
            r,
            new_dest,
            n,
            new_data,
        ),
    ensures
        truthful::<C>(n, contexts, new_data, new_data, f, asset),
        ({
            let geo = context_geometry(contexts[asset]);
            let st = stride(geo);
            &&& r * st <= new_dest.len()
            &&& forall|k: int|
                0 <= k < r * st ==> #[trigger] new_dest[k] == f(
                    contexts[asset].efatfs_handle,
                    geo.audio_data_start_bytes + start_frame * st + k,
                )
        }),
{
    let geo = context_geometry(contexts[asset]);
    reads_keep_leases::<C>(
        m,
        contexts,
        data,
        asset,
        start_frame,
        num_frames,
        dest,
        r,
        new_dest,
        n,
        new_data,
    );
    let t = choose|t: Seq<ReadState>|
        {
            &&& #[trigger] read_steps::<C>(contexts, num_frames as int, t)
            &&& t.len() > 0
            &&& t[0] == (ReadState {
                reader: opened_reader(geo, asset, start_frame),
                tables: m,
                data,
                dest,
                written: 0,
            })
            &&& t.last().written == r
            &&& t.last().dest == new_dest
            &&& read_end::<C>(contexts, num_frames as int, t.last(), n, new_data)
        };
    let a = t.last();
    let k = t.len() - 1;
    assert(0 * stride(geo) == 0);
    assert(reading::<C>(contexts, new_data, f, asset, start_frame, t[0]));
    reveal(read_end);
    if a.written >= num_frames {
        assert(a.data.memory.take(a.data.memory.len() as int) =~= a.data.memory);
        assert(a.data.asked.take(a.data.asked.len() as int) =~= a.data.asked);
        lemma_first_balanced::<C>(m, contexts, data, num_frames as int, t, new_data);
        lemma_steps_balance::<C>(m, contexts, num_frames as int, t, k, new_data);
        lemma_steps_reading::<C>(
            m,
            contexts,
            new_data,
            f,
            asset,
            start_frame,
            num_frames,
            t,
            k,
        );
        lemma_release_shows(a.tables, a.data, a.reader.held, contexts[asset], f, asset, 0, 0);
    } else {
        let (w, v, x) = choose|w: Window, v: ReaderView, x: Model|
            {
                &&& #[trigger] window_outcome::<C>(
                    a.reader,
                    a.tables,
                    contexts,
                    a.data,
                    w,
                    v,
                    x,
                    new_data,
                )
                &&& frames_of(a, w, new_data.chunks, num_frames as int) == 0
                &&& n == released_held(x, v.held)
            };
        lemma_window_memory::<C>(a.reader, a.tables, contexts, a.data, w, v, x, new_data);
        lemma_first_balanced::<C>(m, contexts, data, num_frames as int, t, new_data);
        lemma_steps_balance::<C>(m, contexts, num_frames as int, t, k, new_data);
        lemma_steps_reading::<C>(
            m,
            contexts,
            new_data,
            f,
            asset,
            start_frame,
            num_frames,
            t,
            k,
        );
        lemma_balanced_light(m, a);
        lemma_window_shows::<C>(a.reader, a.tables, contexts, a.data, w, v, x, new_data, f);
        assert(new_data.memory.take(new_data.memory.len() as int) =~= new_data.memory);
        lemma_apart(x, new_data, new_data.memory);
        lemma_release_shows(x, new_data, v.held, contexts[asset], f, asset, 0, 0);
    }
}

} // verus!
