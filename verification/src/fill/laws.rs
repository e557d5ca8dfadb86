//! What holds of filling as a whole.
use crate::fill::chunk::StoredChunk;
use crate::fill::context::FillContext;
use crate::fill::fill_logic::{
    finished, gave, next_stitched, overlay, prev_stitched, ConvertCall, ConvertState, Converted,
    FillGeometry, NeighbourView, SampleConvert, StitchCall, Stitched,
};
use crate::fill::native::{
    after_next, after_prev, chunks_after_finish, fill_geometry, fill_outcome, finish_outcome,
    logic_state, next_leased, next_view, prev_leased, prev_view, read_into, released_if, resolved,
    stitched_chunks, tables_after_finish,
};
use crate::resource::leases::{
    leases_at, lemma_release_leases, lemma_same_leases, lemma_same_slot, lemma_try_acquire_leases,
    light, quiet, same_places,
};
use crate::resource::memory::one_if;
use crate::resource::model::{lemma_slot_at, unique_addresses, Model};
use crate::source::geometry::Geometry;
use vstd::arithmetic::power2::pow2;
use vstd::prelude::*;

verus! {

/// A fill reads the sectors that the cluster's audio needs and no more, as long as the file
/// is addressed in 31 bits and clusters are whole sectors. What the cluster is said to hold
/// is thus read. A cluster past the audio is not read.
pub proof fn fill_reads_what_is_resident(fill: FillGeometry, geo: Geometry, index: u32)
    requires
        geo.audio_data_start_bytes == fill.audio_data_start_pos_bytes,
        geo.audio_data_length_bytes == fill.audio_data_length_bytes,
        geo.cluster_size_bytes == fill.cluster_size,
        fill.cluster_size_magnitude < 31,
        fill.cluster_size == pow2(fill.cluster_size_magnitude as nat),
        fill.cluster_size % 512 == 0,
        geo.length_known() ==> geo.end() < 0x8000_0000,
        index * fill.cluster_size < 0x8000_0000,
    ensures
        fill.byte_offset(index) == index * fill.cluster_size,
        fill.past_end(index) <==> geo.resident(index as int) == 0,
        !fill.past_end(index) ==> fill.sectors(index) * 512 >= geo.resident(index as int)
            && fill.sectors(index) * 512 < geo.resident(index as int) + 512,
{
    let m = fill.cluster_size_magnitude;
    assert(m as u32 == m);
    vstd::bits::lemma_u32_shl_is_mul(index, m);
    vstd::arithmetic::power2::lemma_pow2_strictly_increases(m as nat, 31);
    vstd::arithmetic::power2::lemma2_to64();
    vstd::arithmetic::power2::lemma_pow2_pos(m as nat);
    let off = index * fill.cluster_size;
    assert(0 <= off) by (nonlinear_arith)
        requires
            0 <= index,
            0 <= fill.cluster_size,
            off == index * fill.cluster_size,
    ;
    if geo.length_known() {
        let d = geo.end() - off;
        let r = 0x1_0000_0000int;
        if d >= 0 {
            vstd::arithmetic::div_mod::lemma_small_mod(d as nat, r as nat);
        } else {
            vstd::arithmetic::div_mod::lemma_mod_add_multiples_vanish(d, r);
            vstd::arithmetic::div_mod::lemma_small_mod((d + r) as nat, r as nat);
        }
        vstd::arithmetic::div_mod::lemma_small_mod(fill.cluster_size as nat, r as nat);
    }
}

/// A chunk that is finished is loaded.
proof fn lemma_loaded<C: SampleConvert>(
    chunks: Map<usize, StoredChunk>,
    geo: FillGeometry,
    p: usize,
    index: u32,
    pq: usize,
    nq: usize,
    new_chunks: Map<usize, StoredChunk>,
)
    requires
        stitched_chunks::<C>(chunks, geo, p, index, pq, nq, new_chunks),
    ensures
        new_chunks.dom() == chunks.dom(),
        new_chunks[p].header.loaded,
{
    reveal(chunks_after_finish);
}

/// Giving a lease back that was just taken.
proof fn lemma_released_if(m: Model, p: usize)
    requires
        m.consistent(),
        unique_addresses(m),
        p != 0 ==> leases_at(m, p) >= 1,
    ensures
        released_if(m, p).consistent(),
        unique_addresses(released_if(m, p)),
        quiet(m, released_if(m, p)),
        forall|q: usize|
            q != 0 ==> #[trigger] leases_at(released_if(m, p), q) == leases_at(m, q) - one_if(
                q == p,
            ),
{
    if p != 0 {
        lemma_release_leases(m, p);
    }
}

/// Leasing the previous neighbour.
pub proof fn lemma_after_prev(m: Model, asset: u32, index: u32)
    requires
        m.consistent(),
        unique_addresses(m),
        light(m, 1),
    ensures
        after_prev(m, asset, index).consistent(),
        unique_addresses(after_prev(m, asset, index)),
        quiet(m, after_prev(m, asset, index)),
        forall|q: usize|
            q != 0 ==> #[trigger] leases_at(after_prev(m, asset, index), q) == leases_at(m, q)
                + one_if(q == prev_leased(m, asset, index)),
{
    reveal(prev_leased);
    reveal(after_prev);
    if index > 0 {
        lemma_try_acquire_leases(m, asset, (index - 1) as u32);
    }
}

/// Leasing the next neighbour.
proof fn lemma_after_next(m: Model, asset: u32, index: u32)
    requires
        m.consistent(),
        unique_addresses(m),
        light(m, 1),
    ensures
        after_next(m, asset, index).consistent(),
        unique_addresses(after_next(m, asset, index)),
        quiet(m, after_next(m, asset, index)),
        forall|q: usize|
            q != 0 ==> #[trigger] leases_at(after_next(m, asset, index), q) == leases_at(m, q)
                + one_if(q == next_leased(m, asset, index)),
{
    reveal(next_leased);
    reveal(after_next);
    if index < u32::MAX {
        lemma_try_acquire_leases(m, asset, (index + 1) as u32);
    }
}

/// Both neighbours leased, and given back.
proof fn lemma_neighbours_leased(m: Model, asset: u32, index: u32)
    requires
        m.consistent(),
        unique_addresses(m),
        light(m, 3),
    ensures
        ({
            let b = after_prev(m, asset, index);
            let c = after_next(b, asset, index);
            let d = released_if(c, prev_leased(m, asset, index));
            let e = released_if(d, next_leased(b, asset, index));
            &&& e.consistent()
            &&& unique_addresses(e)
            &&& quiet(m, e)
            &&& forall|q: usize| q != 0 ==> #[trigger] leases_at(e, q) == leases_at(m, q)
        }),
{
    let b = after_prev(m, asset, index);
    let c = after_next(b, asset, index);
    let pq = prev_leased(m, asset, index);
    let nq = next_leased(b, asset, index);
    let d = released_if(c, pq);
    let e = released_if(d, nq);
    lemma_after_prev(m, asset, index);
    lemma_light_by(m, b, 1);
    lemma_after_next(b, asset, index);
    if pq != 0 {
        lemma_slot_at(m, pq);
        assert(leases_at(c, pq) == leases_at(b, pq) + one_if(pq == nq));
    }
    lemma_released_if(c, pq);
    if nq != 0 {
        lemma_slot_at(b, nq);
        assert(leases_at(d, nq) == leases_at(c, nq) - one_if(nq == pq));
        assert(leases_at(c, nq) == leases_at(b, nq) + 1);
        assert(leases_at(b, nq) == leases_at(m, nq) + one_if(nq == pq));
        lemma_slot_at(m, nq);
    }
    lemma_released_if(d, nq);
    assert forall|q: usize| q != 0 implies #[trigger] leases_at(e, q) == leases_at(m, q) by {
        assert(leases_at(e, q) == leases_at(d, q) - one_if(q == nq));
        assert(leases_at(d, q) == leases_at(c, q) - one_if(q == pq));
        assert(leases_at(c, q) == leases_at(b, q) + one_if(q == nq));
        assert(leases_at(b, q) == leases_at(m, q) + one_if(q == pq));
    }
}

/// The tables when a fill is over: all is as it was, but that the chunk is ready.
proof fn lemma_tables_after_finish(m: Model, p: usize, asset: u32, index: u32)
    requires
        m.consistent(),
        unique_addresses(m),
        light(m, 3),
        m.slot_at(p) is Some,
    ensures
        ({
            let n = tables_after_finish(m, p, asset, index);
            &&& n.consistent()
            &&& unique_addresses(n)
            &&& same_places(m, n)
            &&& n.assets == m.assets
            &&& forall|q: usize| q != 0 ==> #[trigger] leases_at(n, q) == leases_at(m, q)
            &&& forall|i: int|
                0 <= i < m.chunks.len() ==> (#[trigger] n.chunks[i]).ready == (m.chunks[i].ready
                    || m.slot_at(p) == Some(i))
        }),
{
    let a = m.searched_ptr(p);
    let b = after_prev(a, asset, index);
    let c = after_next(b, asset, index);
    let d = released_if(c, prev_leased(a, asset, index));
    let e = released_if(d, next_leased(b, asset, index));
    lemma_same_leases(m, p, 0, 0);
    lemma_light_by(m, a, 0);
    lemma_neighbours_leased(a, asset, index);
    lemma_same_leases(e, p, 0, 0);
    lemma_same_slot(m, e, p);
    let n = e.mark_ready(p);
    assert forall|q: usize| q != 0 implies #[trigger] leases_at(n, q) == leases_at(m, q) by {
        assert(leases_at(n, q) == leases_at(e, q));
        assert(leases_at(e, q) == leases_at(a, q));
    }
}

/// A few leases more.
proof fn lemma_light_by(m: Model, n: Model, k: int)
    requires
        light(m, 3),
        0 <= k <= 3,
        forall|q: usize| q != 0 ==> #[trigger] leases_at(n, q) <= leases_at(m, q) + k,
    ensures
        light(n, 3 - k),
{
    assert forall|q: usize| #[trigger] leases_at(n, q) <= u32::MAX - (3 - k) by {
        assert(leases_at(m, q) <= u32::MAX - 3);
        assert(leases_at(m, 0) == 0 && leases_at(n, 0) == 0);
    }
}

/// A fill that is ended makes its chunk ready and loaded, and no other. Every chunk stays
/// where it is and has as many leases as before, the neighbours too that were leased
/// meanwhile.
pub proof fn finished_fills_are_ready<C: SampleConvert>(
    m: Model,
    contexts: Map<u32, FillContext>,
    chunks: Map<usize, StoredChunk>,
    p: usize,
    n: Model,
    new_chunks: Map<usize, StoredChunk>,
)
    requires
        m.consistent(),
        unique_addresses(m),
        light(m, 3),
        finish_outcome::<C>(m, contexts, chunks, p, true, true, n, new_chunks),
    ensures
        m.slot_at(p) is Some,
        new_chunks.dom().contains(p),
        new_chunks[p].header.loaded,
        n.consistent(),
        unique_addresses(n),
        same_places(m, n),
        n.assets == m.assets,
        forall|q: usize| q != 0 ==> #[trigger] leases_at(n, q) == leases_at(m, q),
        forall|i: int|
            0 <= i < m.chunks.len() ==> (#[trigger] n.chunks[i]).ready == (m.chunks[i].ready
                || m.slot_at(p) == Some(i)),
{
    let (asset, index, ctx) = resolved(m, contexts, p)->0;
    let a = m.searched_ptr(p);
    let pq = prev_leased(a, asset, index);
    let nq = next_leased(after_prev(a, asset, index), asset, index);
    lemma_loaded::<C>(chunks, fill_geometry(ctx), p, index, pq, nq, new_chunks);
    lemma_tables_after_finish(m, p, asset, index);
}

/// A conversion that leaves the samples of a cluster as they are, as one of the native
/// format does.
pub open spec fn leaves_samples<C: SampleConvert>() -> bool {
    &&& forall|call: ConvertCall, c: Converted| #[trigger]
        call_ensures(C::convert_cluster, (call,), c) ==> c.cluster@ == call.cluster@
    &&& forall|call: StitchCall, s: Stitched| #[trigger]
        call_ensures(C::stitch_boundaries, (call,), s) ==> {
            &&& s.span@.len() == call.span@.len()
            &&& forall|i: int|
                0 <= i < call.cluster_size && i < call.span@.len() ==> s.span@[i] == call.span@[i]
        }
}

/// If the samples need no conversion, a chunk that was filled holds the bytes that the card
/// gave, up to the cluster's end.
pub proof fn native_samples_are_what_was_read<C: SampleConvert>(
    m: Model,
    contexts: Map<u32, FillContext>,
    chunks: Map<usize, StoredChunk>,
    p: usize,
    data: Seq<u8>,
    n: Model,
    new_chunks: Map<usize, StoredChunk>,
    i: int,
)
    requires
        leaves_samples::<C>(),
        fill_outcome::<C>(m, contexts, chunks, p, true, data, true, n, new_chunks),
        0 <= i < data.len(),
        i < (resolved(m, contexts, p)->0).2.cluster_size,
    ensures
        new_chunks.dom().contains(p),
        new_chunks[p].bytes@[i] == data[i],
{
    let mid = choose|mid: Map<usize, StoredChunk>| #[trigger]
        read_into(chunks, p, data, mid) && finish_outcome::<C>(
            m.searched_ptr(p),
            contexts,
            mid,
            p,
            true,
            true,
            n,
            new_chunks,
        );
    let a = m.searched_ptr(p);
    assert(a.slot_at(p) == m.slot_at(p));
    assert(resolved(a, contexts, p) == resolved(m, contexts, p));
    let (asset, index, ctx) = resolved(m, contexts, p)->0;
    let b = a.searched_ptr(p);
    let pq = prev_leased(b, asset, index);
    let nq = next_leased(after_prev(b, asset, index), asset, index);
    let geo = fill_geometry(ctx);
    reveal(chunks_after_finish);
    let prev = prev_view(mid, p, pq, geo.cluster_size);
    let next = next_view(mid, p, pq, nq, geo.cluster_size);
    let payload = mid[p].bytes@;
    let (c, s, st, v, w) = choose|
        c: Converted,
        s: Stitched,
        st: ConvertState,
        v: Option<NeighbourView>,
        w: Option<NeighbourView>,
    |
        {
            &&& #[trigger] finished(payload, geo, c, s, new_chunks[p].bytes@, st)
            &&& gave::<C>(payload, index, geo, logic_state(mid[p].header.state()), prev, next, c, s)
            &&& #[trigger] prev_stitched(prev, geo.cluster_size as int, s.prev, v)
            &&& #[trigger] next_stitched(next, s.next, w)
        };
    assert(c.cluster@ == payload.subrange(0, geo.cluster_size as int));
    let converted = overlay(payload, 0, c.cluster@, geo.cluster_size as int);
    assert(converted =~= payload);
    assert(s.span@.len() == payload.len() && s.span@[i] == payload[i]);
}

} // verus!
