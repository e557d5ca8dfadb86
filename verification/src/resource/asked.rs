//! What is asked of the program around the cache, and what that is for.
use crate::resource::effects::evictions_empty_one_slot;
use crate::resource::facade::after_evict_scan;
use crate::resource::manager::build_of;
use crate::resource::model::{asset_notice, Model};
use crate::resource::trace::{
    alloc_failed, allocates, asks_memory, builds, evict_step, evicts, finds_slot, frees,
    materialize_counted, nothing_to_evict, ranking, request_asks, requests_missing, retires, told,
    vain_rounds, Event,
};
use crate::resource::types::{AssetSlot, Notice, Rank};
use vstd::prelude::*;

verus! {

/// Memory is asked for from the slab, if there is one, and otherwise from the heap, with the
/// size that is needed, at addresses that are multiples of 16.
pub proof fn memory_is_asked_for_by_size(slab: usize, size: usize, p: usize)
    ensures
        slab != 0 ==> asks_memory(slab, size, p) == (Event::SlabAcquire { slab, got: p }),
        slab == 0 ==> asks_memory(slab, size, p) == (Event::HeapAlloc { size, align: 16, got: p }),
{
}

/// Memory goes back to where it came from: to the slab if there is one, and to the heap if there
/// is none, or if the slab says that it is not its own. It is given back once.
pub proof fn memory_goes_back_where_it_came_from(slab: usize, p: usize, ev: Seq<Event>)
    requires
        frees(slab, p, ev),
    ensures
        slab == 0 ==> ev.len() == 1 && ev[0] == (Event::HeapFree { p }),
        slab != 0 ==> ev.len() >= 1 && ev[0] is SlabRelease && ev[0]->SlabRelease_slab == slab
            && ev[0]->SlabRelease_p == p,
        slab != 0 && ev[0]->taken ==> ev.len() == 1,
        slab != 0 && !ev[0]->taken ==> ev.len() == 2 && ev[1] == (Event::HeapFree { p }),
{
}

/// The owner is told before the memory is given back, and only if there is somebody to tell.
pub proof fn owners_are_told_first(notice: Notice, slab: usize, p: usize, ev: Seq<Event>)
    requires
        told(notice, slab, p, ev),
    ensures
        notice is Silent ==> frees(slab, p, ev),
        !(notice is Silent) ==> ev.len() > 0 && ev[0] == (Event::Notify { notice }) && frees(
            slab,
            p,
            ev.skip(1),
        ),
{
}

/// The rank of each chunk that can go is asked for, by what it is ranked by, and of no other.
pub proof fn ranks_are_asked_for(m: Model, ranks: Seq<Rank>, k: nat, j: int)
    requires
        0 <= j < k <= m.chunks.len(),
    ensures
        ranking(m, ranks, k).len() <= k,
        m.candidate(j) ==> exists|e: int|
            0 <= e < ranking(m, ranks, k).len() && #[trigger] ranking(m, ranks, k)[e] == (
            Event::Ranked { input: m.rank_input(j), rank: ranks[j] }),
        forall|e: int|
            0 <= e < ranking(m, ranks, k).len() ==> (#[trigger] ranking(m, ranks, k)[e]) is Ranked,
    decreases k,
{
    let q = (k - 1) as nat;
    let before = ranking(m, ranks, q);
    let now = ranking(m, ranks, k);
    if j < q {
        ranks_are_asked_for(m, ranks, q, j);
        if m.candidate(j) {
            let e = choose|e: int|
                0 <= e < before.len() && #[trigger] before[e] == (Event::Ranked {
                    input: m.rank_input(j),
                    rank: ranks[j],
                });
            assert(now[e] == before[e]);
        }
    } else {
        lemma_ranking_kinds(m, ranks, q);
        if m.candidate(j) {
            assert(now[before.len() as int] == (Event::Ranked {
                input: m.rank_input(j),
                rank: ranks[j],
            }));
        }
    }
}

proof fn lemma_ranking_kinds(m: Model, ranks: Seq<Rank>, k: nat)
    ensures
        ranking(m, ranks, k).len() <= k,
        forall|e: int|
            0 <= e < ranking(m, ranks, k).len() ==> (#[trigger] ranking(m, ranks, k)[e]) is Ranked,
    decreases k,
{
    if k > 0 {
        lemma_ranking_kinds(m, ranks, (k - 1) as nat);
    }
}

/// One eviction: of the chunks that can go, the one whose rank, as it was answered, is lowest.
/// Its slot is emptied, every other chunk stays, and its memory is given back at the end.
pub proof fn one_chunk_of_the_lowest_rank_goes(m: Model, ev: Seq<Event>, n: Model) -> (r: (
    Seq<Rank>,
    int,
    int,
))
    requires
        evict_step(m, ev, n),
    ensures
        0 <= r.1 < m.chunks.len(),
        m.candidate(r.1),
        forall|j: int|
            0 <= j < m.chunks.len() && #[trigger] m.candidate(j) ==> {
                let a = r.0[r.1];
                let b = r.0[j];
                ||| a.0 < b.0
                ||| a.0 == b.0 && a.1 < b.1
                ||| a.0 == b.0 && a.1 == b.1 && a.2 <= b.2
            },
        forall|j: int|
            0 <= j < m.chunks.len() && #[trigger] m.candidate(j) ==> was_ranked(m, ev, j, r.0[j]),
        n.chunks.len() == m.chunks.len(),
        n.chunks[r.1].backing == 0,
        forall|j: int|
            0 <= j < m.chunks.len() && j != r.1 ==> (#[trigger] n.chunks[j]) == m.chunks[j],
        0 <= r.2 <= ev.len(),
        frees(m.slab_of(m.chunks[r.1].asset), m.chunks[r.1].backing, ev.skip(r.2)),
{
    reveal(evict_step);
    let (ranks, i) = choose|ranks: Seq<Rank>, i: int| #[trigger]
        evicts(m, ranks, i, ev) && n == after_evict_scan(m).evicted(i);
    let a = ranking(m, ranks, m.chunks.len());
    evictions_empty_one_slot(after_evict_scan(m), i);
    assert forall|j: int| 0 <= j < m.chunks.len() && #[trigger] m.candidate(j) implies was_ranked(
        m,
        ev,
        j,
        ranks[j],
    ) by {
        ranks_are_asked_for(m, ranks, m.chunks.len(), j);
        let e = choose|e: int|
            0 <= e < a.len() && #[trigger] a[e] == (Event::Ranked {
                input: m.rank_input(j),
                rank: ranks[j],
            });
        assert(ev.take(a.len() as int)[e] == ev[e]);
    }
    let c = m.chunks[i];
    let rest = ev.skip(a.len() as int);
    if m.notice(i) is Silent {
        (ranks, i, a.len() as int)
    } else {
        assert(rest.skip(1) =~= ev.skip(1 + a.len() as int));
        (ranks, i, 1 + a.len() as int)
    }
}

/// The rank of slot `j` was asked for in `ev`, and `rank` was the answer.
pub open spec fn was_ranked(m: Model, ev: Seq<Event>, j: int, rank: Rank) -> bool {
    exists|e: int|
        0 <= e < ev.len() && #[trigger] ev[e] == (Event::Ranked { input: m.rank_input(j), rank })
}

/// Memory for a chunk is asked for, and the last answer is what is had. Without evicting on
/// failure it is asked for once. With it, giving up means that nothing could go any more. A
/// failure is counted, and a success is not.
pub proof fn memory_is_asked_for_until_nothing_can_go(
    m: Model,
    asset: u32,
    size: usize,
    reclaim: bool,
    ev: Seq<Event>,
    p: usize,
    n: Model,
)
    requires
        allocates(m, asset, size, reclaim, ev, p, n),
    ensures
        ev.len() > 0,
        m.slab_of(asset) != 0 ==> ev.last() == (Event::SlabAcquire {
            slab: m.slab_of(asset),
            got: p,
        }),
        m.slab_of(asset) == 0 ==> ev.last() == (Event::HeapAlloc { size, align: 16, got: p }),
        !reclaim ==> ev.len() == 1 && n.chunks == m.chunks,
        reclaim && p == 0 ==> forall|j: int|
            0 <= j < n.chunks.len() ==> !#[trigger] n.candidate(j),
{
    reveal(allocates);
    let slab = m.slab_of(asset);
    let mid = choose|mid: Model|
        {
            &&& #[trigger] vain_rounds(m, slab, size, ev.drop_last(), mid)
            &&& if p != 0 {
                n == mid
            } else if reclaim {
                nothing_to_evict(mid) && n == alloc_failed(
                    after_evict_scan(mid),
                )
            } else {
                n == alloc_failed(mid)
            }
        };
    if reclaim && p == 0 {
        assert forall|j: int| 0 <= j < n.chunks.len() implies !#[trigger] n.candidate(j) by {
            assert(!mid.candidate(j));
        }
    }
}

/// A failed allocation is counted.
pub proof fn failures_are_counted(m: Model)
    ensures
        m.stats.alloc_failures < u64::MAX ==> alloc_failed(
            m,
        ).stats.alloc_failures == m.stats.alloc_failures + 1,
        alloc_failed(m).chunks == m.chunks,
        m.stats.materializes < u64::MAX ==> materialize_counted(
            m,
        ).stats.materializes == m.stats.materializes + 1,
        materialize_counted(m).chunks == m.chunks,
{
}

/// A slot for a chunk is the first free one, and nothing is asked for it; one chunk goes only
/// if there is none. There is no slot only if none is free and nothing can go.
pub proof fn slots_are_found_before_anything_goes(
    m: Model,
    ev: Seq<Event>,
    slot: Option<int>,
    n: Model,
)
    requires
        finds_slot(m, ev, slot, n),
    ensures
        m.free_slot() is Some ==> slot == m.free_slot() && ev.len() == 0 && n.chunks == m.chunks,
        m.free_slot() is None && slot is None ==> n.chunks == m.chunks && ev.len() == 0 && forall|
            j: int,
        |
            0 <= j < m.chunks.len() ==> !#[trigger] m.candidate(j),
        m.free_slot() is None && (exists|j: int|
            0 <= j < m.chunks.len() && #[trigger] m.candidate(j)) ==> slot is Some,
{
    reveal(finds_slot);
    let a = m.searched_free();
    assert forall|j: int| 0 <= j < m.chunks.len() implies a.candidate(j) == #[trigger] m.candidate(
        j,
    ) by {}
    if m.free_slot() is None && slot is None {
        assert forall|j: int| 0 <= j < m.chunks.len() implies !#[trigger] m.candidate(j) by {
            assert(!a.candidate(j));
        }
    }
    if m.free_slot() is None && (exists|j: int|
        0 <= j < m.chunks.len() && #[trigger] m.candidate(j)) {
        let j = choose|j: int| 0 <= j < m.chunks.len() && #[trigger] m.candidate(j);
        assert(a.candidate(j));
    }
}

/// What a callback is told: the asset's context and owner, the chunk's index, and where its
/// memory is.
pub proof fn what_callbacks_are_told(a: AssetSlot, callback: usize, index: u32, p: usize)
    ensures
        build_of(a, callback, index, p).callback == callback,
        build_of(a, callback, index, p).ctx == a.source.ctx,
        build_of(a, callback, index, p).owner == a.owner,
        build_of(a, callback, index, p).index == index,
        build_of(a, callback, index, p).dest == p,
{
}

/// A request that gives a new chunk has it constructed, last of all, by the asset's own
/// callback, at the address that it gives. One that finds the chunk, or may not ask, asks
/// nothing.
pub proof fn requested_chunks_are_constructed(
    m: Model,
    asset: u32,
    index: u32,
    size: usize,
    reclaim: bool,
    ev: Seq<Event>,
    r: usize,
    n: Model,
)
    requires
        request_asks(m, asset, index, size, reclaim, ev, r, n),
    ensures
        m.resident(asset, index) is Some || !m.requestable(asset) ==> ev.len() == 0,
        m.requestable(asset) && m.resident(asset, index) is None && r != 0 ==> {
            let a = m.assets[asset as int];
            &&& ev.len() > 0
            &&& ev.last() is Construct
            &&& ev.last()->Construct_build.callback == a.source.construct->0
            &&& ev.last()->Construct_build.ctx == a.source.ctx
            &&& ev.last()->Construct_build.owner == a.owner
            &&& ev.last()->Construct_build.index == index
            &&& ev.last()->Construct_build.dest == r
        },
{
    reveal(request_asks);
    reveal(requests_missing);
}

/// An acquire that gives a new chunk has had it rebuilt, to its whole size, by the asset's own
/// callback, if the asset has one. One that could not be rebuilt is given up, and its memory
/// goes back.
pub proof fn acquired_chunks_are_rebuilt(
    m: Model,
    i: int,
    p: usize,
    asset: u32,
    index: u32,
    size: usize,
    ev: Seq<Event>,
    r: usize,
    n: Model,
)
    requires
        0 <= i < m.chunks.len(),
        p != 0,
        builds(m, i, p, asset, index, size, ev, r, n),
    ensures
        ({
            let a = m.assets[asset as int];
            &&& a.source.materialize is None ==> r == p && ev.len() == 0
            &&& a.source.materialize is Some ==> {
                &&& ev.len() > 0
                &&& ev[0] is Materialize
                &&& ev[0]->Materialize_build.callback == a.source.materialize->0
                &&& ev[0]->Materialize_build.ctx == a.source.ctx
                &&& ev[0]->Materialize_build.owner == a.owner
                &&& ev[0]->Materialize_build.index == index
                &&& ev[0]->Materialize_build.dest == p
                &&& ev[0]->len == size
                &&& ev[0]->ok ==> r == p && ev.len() == 1
                &&& !ev[0]->ok ==> r == 0 && frees(m.slab_of(asset), p, ev.skip(1))
            }
            &&& r != 0 ==> n.chunks[i].backing == p && n.chunks[i].ready && n.chunks[i].leases == 1
                && n.chunks[i].asset == asset && n.chunks[i].index == index
            &&& r == 0 ==> n.chunks[i].backing == 0 && n.chunks[i].leases == 0
        }),
{
}

/// An allocation that fails is counted once, however many chunks went for it, and one that
/// succeeds is not.
pub proof fn only_failures_count_as_failures(
    m: Model,
    asset: u32,
    size: usize,
    reclaim: bool,
    ev: Seq<Event>,
    p: usize,
    n: Model,
)
    requires
        allocates(m, asset, size, reclaim, ev, p, n),
        m.stats.alloc_failures < u64::MAX,
    ensures
        p == 0 ==> n.stats.alloc_failures == m.stats.alloc_failures + 1,
        p != 0 ==> n.stats.alloc_failures == m.stats.alloc_failures,
{
    reveal(allocates);
    let slab = m.slab_of(asset);
    let mid = choose|mid: Model|
        {
            &&& ev.len() > 0
            &&& ev.last() == asks_memory(slab, size, p)
            &&& #[trigger] vain_rounds(m, slab, size, ev.drop_last(), mid)
            &&& !reclaim ==> ev.len() == 1
            &&& if p != 0 {
                n == mid
            } else if reclaim {
                nothing_to_evict(mid) && n == alloc_failed(after_evict_scan(mid))
            } else {
                n == alloc_failed(mid)
            }
        };
    lemma_rounds_are_no_failures(m, slab, size, ev.drop_last(), mid);
}

proof fn lemma_rounds_are_no_failures(
    m: Model,
    slab: usize,
    size: usize,
    ev: Seq<Event>,
    n: Model,
)
    requires
        vain_rounds(m, slab, size, ev, n),
    ensures
        n.stats.alloc_failures == m.stats.alloc_failures,
    decreases ev.len(),
{
    reveal(evict_step);
    if ev.len() > 0 {
        let (k, mid) = choose|k: int, mid: Model|
            {
                &&& 0 <= k < ev.len()
                &&& vain_rounds(m, slab, size, ev.take(k), mid)
                &&& ev[k] == asks_memory(slab, size, 0)
                &&& #[trigger] evict_step(mid, ev.skip(k + 1), n)
            };
        lemma_rounds_are_no_failures(m, slab, size, ev.take(k), mid);
    }
}

/// When an asset is retired its owner is told of each chunk by its index, in order, and then the
/// chunk's memory is given back: what comes last is the notice of the last chunk and its memory.
pub proof fn retired_owners_are_told_of_each_chunk(
    m: Model,
    asset: u32,
    order: Seq<usize>,
    ev: Seq<Event>,
) -> (k: int)
    requires
        retires(m, asset, order, ev),
        asset < m.assets.len(),
        order.len() > 0,
    ensures
        0 <= k <= ev.len(),
        retires(m, asset, order.drop_last(), ev.take(k)),
        ({
            let a = m.assets[asset as int];
            let c = m.chunks[order.last() as int];
            &&& a.source.on_evict is Some ==> {
                &&& k < ev.len()
                &&& ev[k] is Notify
                &&& ev[k]->notice is Owner
                &&& ev[k]->notice->Owner_callback == a.source.on_evict->0
                &&& ev[k]->notice->Owner_ctx == a.source.ctx
                &&& ev[k]->notice->owner == a.owner
                &&& ev[k]->notice->index == c.index
                &&& frees(m.slab_of(asset), c.backing, ev.skip(k).skip(1))
            }
            &&& a.source.on_evict is None ==> frees(m.slab_of(asset), c.backing, ev.skip(k))
        }),
{
    reveal(retires);
    let c = m.chunks[order.last() as int];
    choose|k: int|
        {
            &&& 0 <= k <= ev.len()
            &&& retires(m, asset, order.drop_last(), #[trigger] ev.take(k))
            &&& told(
                asset_notice(m.assets[asset as int], c.index),
                m.slab_of(asset),
                c.backing,
                ev.skip(k),
            )
        }
}

} // verus!
