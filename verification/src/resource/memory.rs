//! Where memory goes: what the cache was given is in the table or was given back, once.
use crate::resource::facade::{
    acquire_outcome, after_evict_scan, request_outcome, retired, retired_in_order,
};
use crate::resource::model::{
    asset_notice, at_address, lemma_first_pos, lemma_resident, lemma_slot_at, unique_addresses,
    Model,
};
use crate::resource::trace::{
    acquire_asks, acquire_begun, acquires_missing, adopts, alloc_failed, allocates, asks_memory,
    builds, evict_step, evicts, finds_room, finds_slot, frees, goes_on, nothing_to_evict,
    ranking, request_asks, request_begun, requests_missing, retires, since, told, vain_rounds,
    Event,
};
use crate::resource::types::{ChunkSlot, Notice, Rank};
use vstd::prelude::*;

verus! {

/// How often `p` was given to the cache, less how often the cache gave it back.
pub open spec fn net(ev: Seq<Event>, p: usize) -> int
    decreases ev.len(),
{
    if ev.len() == 0 {
        0
    } else {
        net(ev.drop_last(), p) + worth(ev.last(), p)
    }
}

/// One question's part in that.
pub open spec fn worth(e: Event, p: usize) -> int {
    match e {
        Event::HeapAlloc { got, .. } => one_if(got == p),
        Event::SlabAcquire { got, .. } => one_if(got == p),
        Event::HeapFree { p: q } => -one_if(q == p),
        Event::SlabRelease { p: q, taken, .. } => -one_if(q == p && taken),
        _ => 0,
    }
}

pub open spec fn one_if(b: bool) -> int {
    if b {
        1
    } else {
        0
    }
}

/// How many slots hold the memory `p`.
pub open spec fn backed(chunks: Seq<ChunkSlot>, p: usize) -> int
    decreases chunks.len(),
{
    if chunks.len() == 0 {
        0
    } else {
        backed(chunks.drop_last(), p) + one_if(chunks.last().backing == p)
    }
}

/// The slots hold, of every address, as many more in `n` than in `m` as the cache was given
/// and did not give back.
#[verifier::opaque]
pub open spec fn accounted(m: Seq<ChunkSlot>, n: Seq<ChunkSlot>, ev: Seq<Event>) -> bool {
    forall|p: usize| p != 0 ==> #[trigger] backed(n, p) == backed(m, p) + net(ev, p)
}

proof fn lemma_net_concat(a: Seq<Event>, b: Seq<Event>, p: usize)
    ensures
        net(a + b, p) == net(a, p) + net(b, p),
    decreases b.len(),
{
    if b.len() == 0 {
        assert(a + b =~= a);
    } else {
        lemma_net_concat(a, b.drop_last(), p);
        assert((a + b).drop_last() =~= a + b.drop_last());
        assert((a + b).last() == b.last());
    }
}

proof fn lemma_net_split(ev: Seq<Event>, k: int, p: usize)
    requires
        0 <= k <= ev.len(),
    ensures
        net(ev, p) == net(ev.take(k), p) + net(ev.skip(k), p),
{
    lemma_net_concat(ev.take(k), ev.skip(k), p);
    assert(ev.take(k) + ev.skip(k) =~= ev);
}

proof fn lemma_net_one(e: Event, p: usize)
    ensures
        net(seq![e], p) == worth(e, p),
{
    assert(seq![e].drop_last() =~= Seq::<Event>::empty());
    assert(net(Seq::<Event>::empty(), p) == 0);
}

proof fn lemma_backed_update(chunks: Seq<ChunkSlot>, i: int, c: ChunkSlot, p: usize)
    requires
        0 <= i < chunks.len(),
    ensures
        backed(chunks.update(i, c), p) == backed(chunks, p) - one_if(chunks[i].backing == p)
            + one_if(c.backing == p),
    decreases chunks.len(),
{
    let u = chunks.update(i, c);
    if i == chunks.len() - 1 {
        assert(u.drop_last() =~= chunks.drop_last());
    } else {
        lemma_backed_update(chunks.drop_last(), i, c, p);
        assert(u.drop_last() =~= chunks.drop_last().update(i, c));
    }
}

/// The same addresses are backed as often.
pub proof fn lemma_backed_same(m: Seq<ChunkSlot>, n: Seq<ChunkSlot>, p: usize)
    requires
        n.len() == m.len(),
        forall|i: int| 0 <= i < m.len() ==> (#[trigger] n[i]).backing == m[i].backing,
    ensures
        backed(n, p) == backed(m, p),
    decreases m.len(),
{
    if m.len() > 0 {
        lemma_backed_same(m.drop_last(), n.drop_last(), p);
    }
}

proof fn lemma_frees(slab: usize, q: usize, ev: Seq<Event>, p: usize)
    requires
        frees(slab, q, ev),
    ensures
        net(ev, p) == -one_if(q == p),
{
    lemma_net_one(Event::HeapFree { p: q }, p);
    if slab != 0 {
        lemma_net_one(Event::SlabRelease { slab, p: q, taken: true }, p);
        lemma_net_one(Event::SlabRelease { slab, p: q, taken: false }, p);
        let a = seq![Event::SlabRelease { slab, p: q, taken: false }];
        let b = seq![Event::HeapFree { p: q }];
        lemma_net_concat(a, b, p);
        assert(a + b =~= seq![
            Event::SlabRelease { slab, p: q, taken: false },
            Event::HeapFree { p: q },
        ]);
    }
}

proof fn lemma_told(notice: Notice, slab: usize, q: usize, ev: Seq<Event>, p: usize)
    requires
        told(notice, slab, q, ev),
    ensures
        net(ev, p) == -one_if(q == p),
{
    if notice == Notice::Silent {
        lemma_frees(slab, q, ev, p);
    } else {
        lemma_net_split(ev, 1, p);
        assert(ev.take(1) =~= seq![Event::Notify { notice }]);
        lemma_net_one(Event::Notify { notice }, p);
        lemma_frees(slab, q, ev.skip(1), p);
    }
}

proof fn lemma_ranking(m: Model, ranks: Seq<Rank>, k: nat, p: usize)
    ensures
        net(ranking(m, ranks, k), p) == 0,
    decreases k,
{
    if k > 0 {
        let r = ranking(m, ranks, (k - 1) as nat);
        lemma_ranking(m, ranks, (k - 1) as nat, p);
        if m.candidate(k - 1) {
            let e = Event::Ranked { input: m.rank_input(k - 1), rank: ranks[k - 1] };
            assert(r.push(e).drop_last() =~= r);
        }
    }
}

/// Nothing is asked, and the slots keep their memory.
proof fn lemma_nothing_asked(m: Seq<ChunkSlot>, n: Seq<ChunkSlot>, ev: Seq<Event>)
    requires
        ev.len() == 0,
        n == m,
    ensures
        accounted(m, n, ev),
{
    reveal(accounted);
}

/// One step after the other.
proof fn lemma_accounted_on(
    m: Seq<ChunkSlot>,
    n: Seq<ChunkSlot>,
    o: Seq<ChunkSlot>,
    ev: Seq<Event>,
    k: int,
)
    requires
        0 <= k <= ev.len(),
        accounted(m, n, ev.take(k)),
        accounted(n, o, ev.skip(k)),
    ensures
        accounted(m, o, ev),
{
    reveal(accounted);
    assert forall|p: usize| p != 0 implies #[trigger] backed(o, p) == backed(m, p) + net(
        ev,
        p,
    ) by {
        lemma_net_split(ev, k, p);
        assert(backed(n, p) == backed(m, p) + net(ev.take(k), p));
    }
}

/// An eviction gives back the memory of the chunk that leaves the table, and no other.
pub proof fn eviction_accounts_for_memory(m: Model, ev: Seq<Event>, n: Model)
    requires
        evict_step(m, ev, n),
    ensures
        accounted(m.chunks, n.chunks, ev),
{
    reveal(evict_step);
    reveal(accounted);
    let (ranks, i) = choose|ranks: Seq<Rank>, i: int| #[trigger]
        evicts(m, ranks, i, ev) && n == after_evict_scan(m).evicted(i);
    let asked = ranking(m, ranks, m.chunks.len());
    let c = m.chunks[i];
    assert forall|p: usize| p != 0 implies #[trigger] backed(n.chunks, p) == backed(m.chunks, p)
        + net(ev, p) by {
        lemma_net_split(ev, asked.len() as int, p);
        lemma_ranking(m, ranks, m.chunks.len(), p);
        lemma_told(
            m.notice(i),
            m.slab_of(c.asset),
            c.backing,
            ev.skip(asked.len() as int),
            p,
        );
        lemma_backed_update(m.chunks, i, ChunkSlot::spec_empty(), p);
    }
}

/// A slot that is free stays free while chunks are evicted.
proof fn lemma_evict_keeps_free(m: Model, ev: Seq<Event>, n: Model, i: int)
    requires
        evict_step(m, ev, n),
        0 <= i < m.chunks.len(),
        m.chunks[i].backing == 0,
    ensures
        n.chunks.len() == m.chunks.len(),
        n.chunks[i].backing == 0,
{
    reveal(evict_step);
}

proof fn lemma_rounds(m: Model, slab: usize, size: usize, ev: Seq<Event>, n: Model)
    requires
        vain_rounds(m, slab, size, ev, n),
    ensures
        accounted(m.chunks, n.chunks, ev),
        n.chunks.len() == m.chunks.len(),
        forall|i: int|
            0 <= i < m.chunks.len() && m.chunks[i].backing == 0 ==> (#[trigger] n.chunks[i]).backing
                == 0,
    decreases ev.len(),
{
    if ev.len() == 0 {
        lemma_nothing_asked(m.chunks, n.chunks, ev);
    } else {
        let (k, mid) = choose|k: int, mid: Model|
            {
                &&& 0 <= k < ev.len()
                &&& vain_rounds(m, slab, size, ev.take(k), mid)
                &&& ev[k] == asks_memory(slab, size, 0)
                &&& #[trigger] evict_step(mid, ev.skip(k + 1), n)
            };
        lemma_rounds(m, slab, size, ev.take(k), mid);
        eviction_accounts_for_memory(mid, ev.skip(k + 1), n);
        let e = ev.skip(k);
        assert(e.skip(1) =~= ev.skip(k + 1));
        assert(e.take(1) =~= seq![ev[k]]);
        assert(accounted(mid.chunks, mid.chunks, e.take(1))) by {
            reveal(accounted);
            assert forall|p: usize| p != 0 implies #[trigger] backed(mid.chunks, p) == backed(
                mid.chunks,
                p,
            ) + net(e.take(1), p) by {
                lemma_net_one(ev[k], p);
            }
        }
        lemma_accounted_on(mid.chunks, mid.chunks, n.chunks, e, 1);
        lemma_accounted_on(m.chunks, mid.chunks, n.chunks, ev, k);
        assert forall|i: int| 0 <= i < m.chunks.len() && m.chunks[i].backing == 0 implies (
        #[trigger] n.chunks[i]).backing == 0 by {
            assert(mid.chunks[i].backing == 0);
            lemma_evict_keeps_free(mid, ev.skip(k + 1), n, i);
        }
        assert(n.chunks.len() == m.chunks.len()) by {
            reveal(evict_step);
        }
    }
}

/// Finding a slot is accounted for, and the slot is free.
proof fn lemma_slot_found(m: Model, ev: Seq<Event>, slot: Option<int>, n: Model)
    requires
        finds_slot(m, ev, slot, n),
    ensures
        accounted(m.chunks, n.chunks, ev),
        n.assets == m.assets,
        n.slab == m.slab,
        n.chunks.len() == m.chunks.len(),
        slot is Some ==> 0 <= slot->0 < n.chunks.len() && n.chunks[slot->0].backing == 0,
{
    reveal(finds_slot);
    let a = m.searched_free();
    lemma_first_pos(m.chunks, at_address(0));
    if m.free_slot() is Some || slot is None {
        lemma_nothing_asked(m.chunks, n.chunks, ev);
    } else {
        let b = choose|b: Model| #[trigger]
            evict_step(a, ev, b) && n == b.searched_free() && slot == b.free_slot() && slot is Some;
        eviction_accounts_for_memory(a, ev, b);
        lemma_first_pos(b.chunks, at_address(0));
        reveal(evict_step);
    }
}

/// Room that was found is accounted for, but for the memory `p` that is still to be put
/// into the slot.
proof fn lemma_room_found(
    m: Model,
    asset: u32,
    size: usize,
    reclaim: bool,
    ev: Seq<Event>,
    slot: Option<int>,
    p: usize,
    n: Model,
)
    requires
        finds_room(m, asset, size, reclaim, ev, slot, p, n),
    ensures
        n.assets == m.assets,
        n.slab == m.slab,
        n.chunks.len() == m.chunks.len(),
        p != 0 && slot is Some ==> 0 <= slot->0 < n.chunks.len() && n.chunks[slot->0].backing == 0,
        p != 0 ==> slot is Some,
        forall|q: usize|
            q != 0 ==> #[trigger] backed(n.chunks, q) + one_if(q == p) == backed(m.chunks, q) + net(
                ev,
                q,
            ),
{
    reveal(finds_room);
    reveal(allocates);
    let (k, b) = choose|k: int, b: Model|
        {
            &&& 0 <= k <= ev.len()
            &&& #[trigger] finds_slot(m, ev.take(k), slot, b)
            &&& if slot is Some {
                allocates(b, asset, size, reclaim, ev.skip(k), p, n)
            } else {
                k == ev.len() && p == 0 && n == b
            }
        };
    lemma_slot_found(m, ev.take(k), slot, b);
    if slot is Some {
        let rest = ev.skip(k);
        let slab = b.slab_of(asset);
        let mid = choose|mid: Model|
            {
                &&& rest.len() > 0
                &&& rest.last() == asks_memory(slab, size, p)
                &&& #[trigger] vain_rounds(b, slab, size, rest.drop_last(), mid)
                &&& !reclaim ==> rest.len() == 1
                &&& if p != 0 {
                    n == mid
                } else if reclaim {
                    nothing_to_evict(mid) && n
                        == alloc_failed(after_evict_scan(mid))
                } else {
                    n == alloc_failed(mid)
                }
            };
        lemma_rounds(b, slab, size, rest.drop_last(), mid);
        lemma_same_tables(b, slab, size, rest.drop_last(), mid);
        assert(n.chunks == mid.chunks);
        assert forall|q: usize| q != 0 implies #[trigger] backed(n.chunks, q) + one_if(q == p)
            == backed(m.chunks, q) + net(ev, q) by {
            reveal(accounted);
            lemma_net_split(ev, k, q);
            assert(backed(mid.chunks, q) == backed(b.chunks, q) + net(rest.drop_last(), q));
            assert(backed(b.chunks, q) == backed(m.chunks, q) + net(ev.take(k), q));
        }
    } else {
        assert(ev.take(k) =~= ev);
        assert forall|q: usize| q != 0 implies #[trigger] backed(n.chunks, q) + one_if(q == p)
            == backed(m.chunks, q) + net(ev, q) by {
            reveal(accounted);
        }
    }
}

/// Evictions leave the assets and the slab as they are.
proof fn lemma_same_tables(m: Model, slab: usize, size: usize, ev: Seq<Event>, n: Model)
    requires
        vain_rounds(m, slab, size, ev, n),
    ensures
        n.assets == m.assets,
        n.slab == m.slab,
    decreases ev.len(),
{
    if ev.len() > 0 {
        let (k, mid) = choose|k: int, mid: Model|
            {
                &&& 0 <= k < ev.len()
                &&& vain_rounds(m, slab, size, ev.take(k), mid)
                &&& ev[k] == asks_memory(slab, size, 0)
                &&& #[trigger] evict_step(mid, ev.skip(k + 1), n)
            };
        lemma_same_tables(m, slab, size, ev.take(k), mid);
        reveal(evict_step);
    }
}

/// A request puts the memory that it is given into the table, or is given none; what leaves
/// the table on its account is given back.
pub proof fn requests_account_for_memory(
    m: Model,
    asset: u32,
    index: u32,
    size: usize,
    reclaim: bool,
    ev: Seq<Event>,
    r: usize,
    n: Model,
)
    requires
        m.consistent(),
        request_outcome(m, asset, index, size, r, n),
        request_asks(m, asset, index, size, reclaim, ev, r, n),
    ensures
        accounted(m.chunks, n.chunks, ev),
{
    reveal(request_asks);
    lemma_resident(m, asset, index);
    if m.requestable(asset) && m.resident(asset, index) is None {
        reveal(requests_missing);
        let a = request_begun(m, asset, index);
        let z = n.protecting(m.protection(asset));
        if r == 0 {
            let slot = choose|slot: Option<int>| #[trigger]
                finds_room(a, asset, size, reclaim, ev, slot, 0, z);
            lemma_room_found(a, asset, size, reclaim, ev, slot, 0, z);
            reveal(accounted);
        } else {
            let (slot, b) = choose|slot: Option<int>, b: Model|
                {
                    &&& ev.len() > 0
                    &&& #[trigger] finds_room(a, asset, size, reclaim, ev.drop_last(), slot, r, b)
                    &&& slot is Some
                    &&& z == b.taken(slot->0, r, asset, index, size, false)
                    &&& ev.last() is Construct
                };
            lemma_room_found(a, asset, size, reclaim, ev.drop_last(), slot, r, b);
            reveal(accounted);
            assert forall|p: usize| p != 0 implies #[trigger] backed(n.chunks, p) == backed(
                m.chunks,
                p,
            ) + net(ev, p) by {
                lemma_backed_update(b.chunks, slot->0, z.chunks[slot->0], p);
            }
        }
    } else {
        reveal(request_outcome);
        lemma_hit_accounted(m, n, ev, m.resident(asset, index), m.requestable(asset));
    }
}

/// A chunk that was found and leased stays where it is.
proof fn lemma_hit_accounted(m: Model, n: Model, ev: Seq<Event>, found: Option<int>, allowed: bool)
    requires
        ev.len() == 0,
        !allowed ==> n == m,
        allowed ==> found is Some && 0 <= found->0 < m.chunks.len() && n.chunks == m.chunks.update(
            found->0,
            n.chunks[found->0],
        ) && n.chunks[found->0].backing == m.chunks[found->0].backing,
    ensures
        accounted(m.chunks, n.chunks, ev),
{
    reveal(accounted);
    if allowed {
        assert forall|p: usize| p != 0 implies #[trigger] backed(n.chunks, p) == backed(
            m.chunks,
            p,
        ) + net(ev, p) by {
            lemma_backed_update(m.chunks, found->0, n.chunks[found->0], p);
        }
    }
}

/// Acquiring a chunk puts the memory that it is given into the table, or gives it back if
/// the chunk cannot be rebuilt, or is given none; what leaves the table on its account is
/// given back.
pub proof fn acquires_account_for_memory(
    m: Model,
    asset: u32,
    index: u32,
    size: usize,
    reclaim: bool,
    ev: Seq<Event>,
    r: usize,
    n: Model,
)
    requires
        m.consistent(),
        acquire_outcome(m, asset, index, size, r, n),
        acquire_asks(m, asset, index, size, reclaim, ev, r, n),
    ensures
        accounted(m.chunks, n.chunks, ev),
{
    reveal(acquire_asks);
    lemma_resident(m, asset, index);
    if m.usable(asset) && m.resident(asset, index) is None {
        reveal(acquires_missing);
        let a = acquire_begun(m, asset, index);
        let z = n.protecting(m.protection(asset));
        let (k, slot, p, b) = choose|k: int, slot: Option<int>, p: usize, b: Model|
            {
                &&& 0 <= k <= ev.len()
                &&& #[trigger] finds_room(a, asset, size, reclaim, ev.take(k), slot, p, b)
                &&& if p == 0 {
                    r == 0 && z == b && k == ev.len()
                } else {
                    slot is Some && builds(b, slot->0, p, asset, index, size, ev.skip(k), r, z)
                }
            };
        lemma_room_found(a, asset, size, reclaim, ev.take(k), slot, p, b);
        reveal(accounted);
        if p == 0 {
            assert(ev.take(k) =~= ev);
        } else {
            lemma_built(b, slot->0, p, asset, index, size, ev.skip(k), r, z);
            assert forall|q: usize| q != 0 implies #[trigger] backed(n.chunks, q) == backed(
                m.chunks,
                q,
            ) + net(ev, q) by {
                lemma_net_split(ev, k, q);
                assert(backed(b.chunks, q) + one_if(q == p) == backed(a.chunks, q) + net(
                    ev.take(k),
                    q,
                ));
                assert(backed(z.chunks, q) == backed(b.chunks, q) + one_if(q == p) + net(
                    ev.skip(k),
                    q,
                ));
            }
        }
    } else {
        reveal(acquire_outcome);
        lemma_hit_accounted(m, n, ev, m.resident(asset, index), m.usable(asset));
    }
}

proof fn lemma_built(
    m: Model,
    i: int,
    p: usize,
    asset: u32,
    index: u32,
    size: usize,
    ev: Seq<Event>,
    r: usize,
    n: Model,
)
    requires
        builds(m, i, p, asset, index, size, ev, r, n),
        0 <= i < m.chunks.len(),
        m.chunks[i].backing == 0,
        p != 0,
    ensures
        forall|q: usize|
            q != 0 ==> #[trigger] backed(n.chunks, q) == backed(m.chunks, q) + one_if(q == p) + net(
                ev,
                q,
            ),
{
    let t = m.taken(i, p, asset, index, size, true);
    assert forall|q: usize| q != 0 implies #[trigger] backed(n.chunks, q) == backed(m.chunks, q)
        + one_if(q == p) + net(ev, q) by {
        lemma_backed_update(m.chunks, i, t.chunks[i], q);
        if m.assets[asset as int].source.materialize is Some {
            if r != 0 {
                lemma_net_one(ev[0], q);
                assert(ev =~= seq![ev[0]]);
            } else {
                lemma_net_split(ev, 1, q);
                assert(ev.take(1) =~= seq![ev[0]]);
                lemma_net_one(ev[0], q);
                lemma_frees(m.slab_of(asset), p, ev.skip(1), q);
                lemma_backed_update(t.chunks, i, ChunkSlot::spec_empty(), q);
            }
        }
    }
}

/// Adopting a block puts it into the table once; what leaves the table on its account is
/// given back.
pub proof fn adopting_accounts_for_memory(
    m: Model,
    p: usize,
    size: usize,
    cost: u32,
    ctx: usize,
    on_evict: Option<usize>,
    ev: Seq<Event>,
    r: usize,
    n: Model,
)
    requires
        p != 0,
        adopts(m, p, size, cost, ctx, on_evict, ev, r, n),
    ensures
        forall|q: usize|
            q != 0 ==> #[trigger] backed(n.chunks, q) == backed(m.chunks, q) + net(ev, q) + one_if(
                q == r,
            ),
{
    let (slot, b) = choose|slot: Option<int>, b: Model|
        {
            &&& #[trigger] finds_slot(m, ev, slot, b)
            &&& match slot {
                Some(i) => r == p && n == b.adopted(i, p, size, cost, ctx, on_evict),
                None => r == 0 && n == b,
            }
        };
    lemma_slot_found(m, ev, slot, b);
    assert forall|q: usize| q != 0 implies #[trigger] backed(n.chunks, q) == backed(m.chunks, q)
        + net(ev, q) + one_if(q == r) by {
        reveal(accounted);
        assert(backed(b.chunks, q) == backed(m.chunks, q) + net(ev, q));
        if slot is Some {
            lemma_backed_update(b.chunks, slot->0, n.chunks[slot->0], q);
        }
    }
}

/// Dropping a resident chunk gives its memory back.
pub proof fn dropping_accounts_for_memory(m: Model, p: usize, ev: Seq<Event>)
    requires
        m.slot_at(p) is Some,
        frees(m.slab_of(m.chunks[m.slot_at(p)->0].asset), p, ev),
    ensures
        accounted(m.chunks, m.evict_chunk(p).chunks, ev),
{
    lemma_slot_at(m, p);
    reveal(accounted);
    let i = m.slot_at(p)->0;
    let n = m.evict_chunk(p);
    assert forall|q: usize| q != 0 implies #[trigger] backed(n.chunks, q) == backed(m.chunks, q)
        + net(ev, q) by {
        lemma_frees(m.slab_of(m.chunks[i].asset), p, ev, q);
        lemma_backed_update(m.chunks, i, ChunkSlot::spec_empty(), q);
    }
}

/// The slots of `order` emptied.
spec fn emptied(chunks: Seq<ChunkSlot>, order: Seq<usize>) -> Seq<ChunkSlot>
    decreases order.len(),
{
    if order.len() == 0 {
        chunks
    } else {
        emptied(chunks, order.drop_last()).update(order.last() as int, ChunkSlot::spec_empty())
    }
}

proof fn lemma_emptied(chunks: Seq<ChunkSlot>, order: Seq<usize>)
    requires
        forall|k: int| 0 <= k < order.len() ==> (#[trigger] order[k]) < chunks.len(),
    ensures
        emptied(chunks, order).len() == chunks.len(),
        forall|i: int|
            0 <= i < chunks.len() ==> (#[trigger] emptied(chunks, order)[i]) == (
            if exists|k: int| 0 <= k < order.len() && order[k] == i {
                ChunkSlot::spec_empty()
            } else {
                chunks[i]
            }),
    decreases order.len(),
{
    if order.len() > 0 {
        let o = order.drop_last();
        lemma_emptied(chunks, o);
        assert(order[order.len() - 1] < chunks.len());
        assert forall|i: int| 0 <= i < chunks.len() implies (#[trigger] emptied(chunks, order)[i])
            == (if exists|k: int| 0 <= k < order.len() && order[k] == i {
            ChunkSlot::spec_empty()
        } else {
            chunks[i]
        }) by {
            if exists|k: int| 0 <= k < o.len() && o[k] == i {
                let k = choose|k: int| 0 <= k < o.len() && o[k] == i;
                assert(order[k] == i);
            }
            if order.last() == i {
                assert(order[order.len() - 1] == i);
            } else if exists|k: int| 0 <= k < order.len() && order[k] == i {
                let k = choose|k: int| 0 <= k < order.len() && order[k] == i;
                assert(o[k] == i);
            }
        }
    }
}

proof fn lemma_retires(m: Model, asset: u32, order: Seq<usize>, ev: Seq<Event>)
    requires
        retires(m, asset, order, ev),
        forall|k: int| 0 <= k < order.len() ==> (#[trigger] order[k]) < m.chunks.len(),
        forall|k: int, l: int|
            0 <= k < l < order.len() ==> (#[trigger] order[k]) != (#[trigger] order[l]),
    ensures
        accounted(m.chunks, emptied(m.chunks, order), ev),
    decreases order.len(),
{
    reveal(retires);
    if order.len() == 0 {
        lemma_nothing_asked(m.chunks, emptied(m.chunks, order), ev);
    } else {
        let o = order.drop_last();
        let i = order.last() as int;
        let c = m.chunks[i];
        let k = choose|k: int|
            {
                &&& 0 <= k <= ev.len()
                &&& retires(m, asset, o, #[trigger] ev.take(k))
                &&& told(
                    asset_notice(m.assets[asset as int], c.index),
                    m.slab_of(asset),
                    c.backing,
                    ev.skip(k),
                )
            };
        lemma_retires(m, asset, o, ev.take(k));
        lemma_emptied(m.chunks, o);
        let e = emptied(m.chunks, o);
        assert(order[order.len() - 1] == i);
        assert(e[i] == c);
        assert(accounted(e, emptied(m.chunks, order), ev.skip(k))) by {
            reveal(accounted);
            assert forall|p: usize| p != 0 implies #[trigger] backed(emptied(m.chunks, order), p)
                == backed(e, p) + net(ev.skip(k), p) by {
                lemma_backed_update(e, i, ChunkSlot::spec_empty(), p);
                lemma_told(
                    asset_notice(m.assets[asset as int], c.index),
                    m.slab_of(asset),
                    c.backing,
                    ev.skip(k),
                    p,
                );
            }
        }
        lemma_accounted_on(m.chunks, e, emptied(m.chunks, order), ev, k);
    }
}

/// Retiring an asset gives back the memory of all its chunks, each once.
pub proof fn retiring_accounts_for_memory(
    m: Model,
    asset: u32,
    order: Seq<usize>,
    ev: Seq<Event>,
    n: Model,
)
    requires
        m.chunks.len() <= 0x8000_0000,
        retired(m, asset, n),
        retired_in_order(m, asset, order),
        forall|j: int|
            0 <= j < m.chunks.len() && #[trigger] m.of_asset(j, asset) ==> order.contains(
                j as usize,
            ),
        retires(m, asset, order, ev),
    ensures
        accounted(m.chunks, n.chunks, ev),
{
    assert forall|k: int, l: int| 0 <= k < l < order.len() implies (#[trigger] order[k]) != (
    #[trigger] order[l]) by {}
    lemma_retires(m, asset, order, ev);
    lemma_emptied(m.chunks, order);
    let e = emptied(m.chunks, order);
    assert forall|i: int| 0 <= i < m.chunks.len() implies e[i] == n.chunks[i] by {
        if m.of_asset(i, asset) {
            assert(order.contains(i as usize));
            let k = choose|k: int| 0 <= k < order.len() && order[k] == i as usize;
            assert(order[k] == i);
        } else if exists|k: int| 0 <= k < order.len() && order[k] == i {
            let k = choose|k: int| 0 <= k < order.len() && order[k] == i;
            assert(m.of_asset(order[k] as int, asset));
        }
    }
    assert(e =~= n.chunks);
}

/// Each address is in as many slots as the cache was given it and has not given it back.
pub open spec fn booked(chunks: Seq<ChunkSlot>, memory: Seq<Event>) -> bool {
    forall|p: usize| p != 0 ==> #[trigger] backed(chunks, p) == net(memory, p)
}

/// The address that was given, or 0.
pub open spec fn given(e: Event) -> usize {
    match e {
        Event::HeapAlloc { got, .. } => got,
        Event::SlabAcquire { got, .. } => got,
        _ => 0,
    }
}

/// No memory was given that the cache still had.
pub open spec fn sound(memory: Seq<Event>) -> bool {
    forall|k: int|
        0 <= k < memory.len() && given(#[trigger] memory[k]) != 0 ==> net(
            memory.take(k),
            given(memory[k]),
        ) <= 0
}

/// What is booked stays booked while the cache accounts for its memory.
pub proof fn accounts_keep_memory_booked(
    m: Seq<ChunkSlot>,
    n: Seq<ChunkSlot>,
    a: Seq<Event>,
    b: Seq<Event>,
)
    requires
        booked(m, a),
        goes_on(a, b),
        accounted(m, n, since(a, b)),
    ensures
        booked(n, b),
{
    reveal(accounted);
    assert forall|p: usize| p != 0 implies #[trigger] backed(n, p) == net(b, p) by {
        assert(backed(m, p) == net(a, p));
        lemma_net_split(b, a.len() as int, p);
    }
}

/// Memory that was sound up to `b` was so up to `a`.
pub proof fn lemma_sound_before(a: Seq<Event>, b: Seq<Event>)
    requires
        goes_on(a, b),
        sound(b),
    ensures
        sound(a),
{
    assert forall|k: int| 0 <= k < a.len() && given(#[trigger] a[k]) != 0 implies net(
        a.take(k),
        given(a[k]),
    ) <= 0 by {
        assert(b.take(a.len() as int)[k] == b[k]);
        assert(a.take(k) =~= b.take(k));
    }
}

proof fn lemma_sound_net(memory: Seq<Event>, p: usize)
    requires
        sound(memory),
        p != 0,
    ensures
        net(memory, p) <= 1,
    decreases memory.len(),
{
    if memory.len() > 0 {
        let before = memory.drop_last();
        let k = memory.len() - 1;
        assert forall|j: int| 0 <= j < before.len() && given(#[trigger] before[j]) != 0 implies net(
            before.take(j),
            given(before[j]),
        ) <= 0 by {
            assert(before[j] == memory[j]);
            assert(before.take(j) =~= memory.take(j));
        }
        lemma_sound_net(before, p);
        assert(memory.take(k) =~= before);
        assert(memory[k] == memory.last());
    }
}

proof fn lemma_backed_twice(chunks: Seq<ChunkSlot>, i: int, j: int, p: usize)
    requires
        0 <= i < j < chunks.len(),
        chunks[i].backing == p,
        chunks[j].backing == p,
    ensures
        backed(chunks, p) >= 2,
    decreases chunks.len(),
{
    if j < chunks.len() - 1 {
        lemma_backed_twice(chunks.drop_last(), i, j, p);
    } else {
        lemma_backed_once(chunks.drop_last(), i, p);
    }
}

proof fn lemma_backed_once(chunks: Seq<ChunkSlot>, i: int, p: usize)
    requires
        0 <= i < chunks.len(),
        chunks[i].backing == p,
    ensures
        backed(chunks, p) >= 1,
    decreases chunks.len(),
{
    lemma_backed_counts(chunks.drop_last(), p);
    if i < chunks.len() - 1 {
        lemma_backed_once(chunks.drop_last(), i, p);
    }
}

proof fn lemma_backed_counts(chunks: Seq<ChunkSlot>, p: usize)
    ensures
        backed(chunks, p) >= 0,
    decreases chunks.len(),
{
    if chunks.len() > 0 {
        lemma_backed_counts(chunks.drop_last(), p);
    }
}

/// If no memory is given that the cache still has, no two resident chunks share an address.
pub proof fn sound_memory_keeps_addresses_apart(m: Model, memory: Seq<Event>)
    requires
        booked(m.chunks, memory),
        sound(memory),
    ensures
        unique_addresses(m),
{
    assert forall|i: int, j: int|
        0 <= i < m.chunks.len() && 0 <= j < m.chunks.len() && (#[trigger] m.chunks[i]).backing != 0
            && (#[trigger] m.chunks[j]).backing == m.chunks[i].backing implies i == j by {
        let p = m.chunks[i].backing;
        lemma_sound_net(memory, p);
        assert(backed(m.chunks, p) == net(memory, p));
        if i < j {
            lemma_backed_twice(m.chunks, i, j, p);
        } else if j < i {
            lemma_backed_twice(m.chunks, j, i, p);
        }
    }
}

} // verus!
