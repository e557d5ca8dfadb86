//! What the cache's operations are for, slot by slot: which chunk they reach, what they change
//! of it, and that they leave everything else alone.
use crate::resource::facade::{
    acquire_outcome, adopted_in, kept_or_evicted, newly_reserved, only_evicted, pin_token_of,
    queued_at, request_outcome, retired, retired_in_order, token_gen, token_of, token_slot,
};
use crate::resource::index::{lemma_key_bucket, NONE};
use crate::resource::laws::clocked;
use crate::resource::model::{
    asset_notice, at_address, first_pos, lemma_first_pos, lemma_first_pos_is, lemma_resident,
    lemma_slot_at, numbered_with_key, unused_asset, Model,
};
use crate::resource::trace::{acquire_begun, request_begun};
use crate::resource::types::{
    rank_before, AssetSlot, ChunkSlot, Notice, Rank, Source, Stats, BACKING_SLAB,
};
use vstd::prelude::*;

verus! {

// ---- finding ----

/// Slot `i` is the first whose chunk is at the address `p`.
pub open spec fn backs_first(m: Model, p: usize, i: int) -> bool {
    &&& p != 0
    &&& 0 <= i < m.chunks.len()
    &&& m.chunks[i].backing == p
    &&& forall|j: int| 0 <= j < i ==> (#[trigger] m.chunks[j]).backing != p
}

/// A chunk is found by its address: in the first slot that has it, and nowhere if no slot has
/// it. Nothing is at the address 0.
pub proof fn chunks_are_found_by_address(m: Model, p: usize, i: int)
    ensures
        m.slot_at(p) == Some(i) <==> backs_first(m, p, i),
        m.slot_at(p) is None <==> p == 0 || forall|j: int|
            0 <= j < m.chunks.len() ==> (#[trigger] m.chunks[j]).backing != p,
{
    lemma_slot_at(m, p);
    if backs_first(m, p, i) {
        assert forall|j: int| 0 <= j < i implies !at_address(p)(#[trigger] m.chunks[j]) by {}
        lemma_first_pos_is(m.chunks, at_address(p), i);
    }
}

/// A chunk is found by its key where it is, and it is found nowhere if it is in no slot. Looking
/// gives its address; acquiring gives it only if the chunk is ready.
pub proof fn chunks_are_found_by_key(m: Model, asset: u32, index: u32, i: int)
    requires
        m.consistent(),
        m.unique_keys(),
        0 <= i < m.chunks.len(),
        m.chunks[i].backing != 0,
        m.chunks[i].asset == asset,
        m.chunks[i].index == index,
        asset != u32::MAX,
    ensures
        m.resident(asset, index) == Some(i),
        m.peek_result(asset, index) == m.chunks[i].backing,
        m.chunks[i].ready ==> m.try_acquire_result(asset, index) == m.chunks[i].backing,
        !m.chunks[i].ready ==> m.try_acquire_result(asset, index) == 0,
{
    lemma_resident(m, asset, index);
    assert(m.chunks[i].holds(asset, index));
    assert(m.keyed(i));
}

/// What is in no slot is not found.
pub proof fn missing_chunks_are_not_found(m: Model, asset: u32, index: u32)
    requires
        m.consistent(),
        forall|j: int|
            0 <= j < m.chunks.len() ==> (#[trigger] m.chunks[j]).backing == 0 || m.chunks[j].asset
                != asset || m.chunks[j].index != index,
    ensures
        m.resident(asset, index) is None,
        m.peek_result(asset, index) == 0,
        m.try_acquire_result(asset, index) == 0,
{
    lemma_resident(m, asset, index);
}

/// A new chunk gets the first slot that has no chunk, and a new asset the first slot that is
/// not in use.
pub proof fn free_slots_are_the_first(m: Model, i: int)
    requires
        0 <= i,
    ensures
        m.free_slot() == Some(i) <==> i < m.chunks.len() && m.chunks[i].backing == 0 && forall|
            j: int,
        |
            0 <= j < i ==> (#[trigger] m.chunks[j]).backing != 0,
        m.free_slot() is None <==> forall|j: int|
            0 <= j < m.chunks.len() ==> (#[trigger] m.chunks[j]).backing != 0,
        m.free_asset() == Some(i) <==> i < m.assets.len() && !m.assets[i].in_use && forall|j: int|
            0 <= j < i ==> (#[trigger] m.assets[j]).in_use,
        m.free_asset() is None <==> forall|j: int|
            0 <= j < m.assets.len() ==> (#[trigger] m.assets[j]).in_use,
{
    let c = at_address(0);
    lemma_first_pos(m.chunks, c);
    let k = first_pos(m.chunks, c) as int;
    assert forall|j: int| 0 <= j < k implies (#[trigger] m.chunks[j]).backing != 0 by {
        assert(!c(m.chunks[j]));
    }
    if k < m.chunks.len() {
        assert(c(m.chunks[k]));
    }
    let a = unused_asset();
    lemma_first_pos(m.assets, a);
    let l = first_pos(m.assets, a) as int;
    assert forall|j: int| 0 <= j < l implies (#[trigger] m.assets[j]).in_use by {
        assert(!a(m.assets[j]));
    }
    if l < m.assets.len() {
        assert(a(m.assets[l]));
    }
}

// ---- leases and use ----

/// Between `m` and `n` at most the chunk in slot `i`, the clock and the counters changed.
pub open spec fn only_slot(m: Model, n: Model, i: int) -> bool {
    &&& n.slab == m.slab
    &&& n.assets == m.assets
    &&& n.chains == m.chains
    &&& n.protect == m.protect
    &&& n.alloc_gen == m.alloc_gen
    &&& n.chunks.len() == m.chunks.len()
    &&& forall|j: int| 0 <= j < m.chunks.len() && j != i ==> (#[trigger] n.chunks[j]) == m.chunks[j]
}

/// The chunk in slot `i` has one lease more, and is the one used last. Nothing else of it
/// changed, and no other chunk.
pub open spec fn leased_and_used(m: Model, n: Model, i: int) -> bool {
    let c = m.chunks[i];
    let d = n.chunks[i];
    &&& only_slot(m, n, i)
    &&& c.leases < u32::MAX ==> d.leases == c.leases + 1
    &&& c.leases == u32::MAX ==> d.leases == 0
    &&& d == (ChunkSlot { leases: d.leases, recency: d.recency, ..c })
    &&& clocked(m) && m.tick < u64::MAX ==> forall|j: int|
        0 <= j < m.chunks.len() && j != i ==> d.recency > (#[trigger] n.chunks[j]).recency
}

/// Whoever leases a chunk uses it: by its address, by its key, by a token, or by a request or
/// an acquire that finds it resident. It has one lease more then, and is the last to go.
pub proof fn leasing_makes_most_recent(m: Model, i: int, size: usize, n: Model)
    requires
        m.consistent(),
        m.unique_keys(),
        0 <= i < m.chunks.len(),
        m.chunks[i].backing != 0,
    ensures
        backs_first(m, m.chunks[i].backing, i) ==> leased_and_used(
            m,
            m.add_lease(m.chunks[i].backing),
            i,
        ),
        m.chunks[i].asset != u32::MAX && m.chunks[i].ready ==> leased_and_used(
            m,
            m.try_acquire(m.chunks[i].asset, m.chunks[i].index),
            i,
        ),
        leased_and_used(m, m.retain(i as u32, m.chunks[i].generation), i),
        m.chunks[i].asset != u32::MAX && m.assets[m.chunks[i].asset as int].in_use
            && acquire_outcome(
            m,
            m.chunks[i].asset,
            m.chunks[i].index,
            size,
            m.chunks[i].backing,
            n,
        ) ==> leased_and_used(m, n, i),
        m.chunks[i].asset != u32::MAX && m.assets[m.chunks[i].asset as int].in_use
            && m.assets[m.chunks[i].asset as int].source.construct is Some && request_outcome(
            m,
            m.chunks[i].asset,
            m.chunks[i].index,
            size,
            m.chunks[i].backing,
            n,
        ) ==> leased_and_used(m, n, i),
{
    let c = m.chunks[i];
    if backs_first(m, c.backing, i) {
        chunks_are_found_by_address(m, c.backing, i);
        lemma_used(m, m.add_lease(c.backing), i);
    }
    if c.asset != u32::MAX {
        chunks_are_found_by_key(m, c.asset, c.index, i);
        if c.ready {
            lemma_used(m, m.try_acquire(c.asset, c.index), i);
        }
        reveal(acquire_outcome);
        reveal(request_outcome);
        lemma_used(m, m.hit(i), i);
    }
    lemma_used(m, m.retain(i as u32, c.generation), i);
}

proof fn lemma_used(m: Model, n: Model, i: int)
    requires
        0 <= i < m.chunks.len(),
        only_slot(m, n, i),
        n.tick == m.tick.wrapping_add(1),
        n.chunks[i] == m.chunks[i].leased(n.tick),
    ensures
        leased_and_used(m, n, i),
{
    if clocked(m) && m.tick < u64::MAX {
        assert forall|j: int| 0 <= j < m.chunks.len() && j != i implies n.chunks[i].recency > (
        #[trigger] n.chunks[j]).recency by {
            assert(m.chunks[j].recency <= m.tick);
        }
    }
}

/// A chunk that is not ready is not leased by acquiring it by its key alone, and neither is
/// anything else.
pub proof fn unready_chunks_are_not_leased(m: Model, asset: u32, index: u32)
    requires
        m.try_acquire_result(asset, index) == 0,
        m.consistent(),
    ensures
        m.try_acquire(asset, index).chunks == m.chunks,
{
    lemma_resident(m, asset, index);
}

/// The chunk in slot `i` has one lease fewer, or none if it had none. Nothing else of it
/// changed, and no other chunk: giving a lease back is no use of the chunk.
pub open spec fn unleased(m: Model, n: Model, i: int) -> bool {
    let c = m.chunks[i];
    let d = n.chunks[i];
    &&& only_slot(m, n, i)
    &&& n.tick == m.tick
    &&& c.leases > 0 ==> d.leases == c.leases - 1
    &&& c.leases == 0 ==> d.leases == 0
    &&& d == (ChunkSlot { leases: d.leases, ..c })
}

/// Giving a lease back, by the address or by a token, takes one lease off that chunk. An
/// address or a token that nothing answers to takes none off any.
pub proof fn releasing_takes_one_lease_off(m: Model, p: usize, i: int, slot: u32, gen: u32)
    requires
        m.chunks.len() <= 0x8000_0000,
    ensures
        backs_first(m, p, i) ==> unleased(m, m.release(p), i),
        (forall|j: int| 0 <= j < m.chunks.len() ==> (#[trigger] m.chunks[j]).backing != p)
            ==> m.release(p).chunks == m.chunks,
        0 <= i < m.chunks.len() && m.chunks[i].backing != 0 ==> unleased(
            m,
            m.release_slot(i as u32, m.chunks[i].generation),
            i,
        ),
        slot >= m.chunks.len() || m.chunks[slot as int].backing == 0
            || m.chunks[slot as int].generation != gen ==> m.release_slot(slot, gen).chunks
            == m.chunks && m.retain(slot, gen).chunks == m.chunks,
{
    chunks_are_found_by_address(m, p, i);
    lemma_slot_at(m, p);
}

/// Touching a chunk makes it the one used last, and changes nothing else. Saying that it is
/// unsaved, saved, or ready changes that and nothing else. None of it reaches another chunk.
pub proof fn marks_change_one_thing(m: Model, p: usize, i: int, dirty: bool)
    requires
        backs_first(m, p, i),
    ensures
        only_slot(m, m.touch(p), i),
        m.touch(p).chunks[i] == (ChunkSlot {
            recency: m.touch(p).chunks[i].recency,
            ..m.chunks[i]
        }),
        clocked(m) && m.tick < u64::MAX ==> forall|j: int|
            0 <= j < m.chunks.len() && j != i ==> m.touch(p).chunks[i].recency > (
            #[trigger] m.touch(p).chunks[j]).recency,
        only_slot(m, m.set_dirty(p, dirty), i),
        m.set_dirty(p, dirty).tick == m.tick,
        m.set_dirty(p, dirty).chunks[i] == (ChunkSlot { dirty, ..m.chunks[i] }),
        only_slot(m, m.mark_ready(p), i),
        m.mark_ready(p).tick == m.tick,
        m.mark_ready(p).chunks[i] == (ChunkSlot { ready: true, ..m.chunks[i] }),
{
    chunks_are_found_by_address(m, p, i);
    let n = m.touch(p);
    if clocked(m) && m.tick < u64::MAX {
        assert forall|j: int| 0 <= j < m.chunks.len() && j != i implies n.chunks[i].recency > (
        #[trigger] n.chunks[j]).recency by {
            assert(m.chunks[j].recency <= m.tick);
        }
    }
}

/// An address that no chunk has changes no chunk, whatever is asked of it.
pub proof fn unknown_addresses_change_nothing(m: Model, p: usize, dirty: bool, priority: u32)
    requires
        m.chunks.len() <= 0x8000_0000,
        p == 0 || forall|j: int| 0 <= j < m.chunks.len() ==> (#[trigger] m.chunks[j]).backing != p,
    ensures
        m.add_lease(p).chunks == m.chunks,
        m.release(p).chunks == m.chunks,
        m.touch(p).chunks == m.chunks,
        m.set_dirty(p, dirty).chunks == m.chunks,
        m.mark_ready(p).chunks == m.chunks,
        m.evict_chunk(p).chunks == m.chunks,
        queued_at(m, p, priority).chunks == m.chunks,
        pin_token_of(m, p) == 0,
{
    chunks_are_found_by_address(m, p, 0);
}

/// A token is the chunk's slot, above, and its generation, below, in 32 bits each. A chunk that
/// was never stamped has none.
pub proof fn tokens_are_slot_and_generation(m: Model, p: usize, i: int, slot: u32, gen: u32)
    requires
        m.chunks.len() <= 0x8000_0000,
    ensures
        token_of(slot, gen) == slot * 0x1_0000_0000 + gen,
        token_slot(token_of(slot, gen)) == slot,
        token_gen(token_of(slot, gen)) == gen,
        backs_first(m, p, i) && m.chunks[i].generation != 0 ==> pin_token_of(m, p) == i
            * 0x1_0000_0000 + m.chunks[i].generation,
        backs_first(m, p, i) && m.chunks[i].generation == 0 ==> pin_token_of(m, p) == 0,
{
    chunks_are_found_by_address(m, p, i);
}

// ---- the load queue ----

/// The chunk in slot `i` waits for the loader at `priority`.
pub open spec fn waits(m: Model, i: int, priority: u32) -> bool {
    m.chunks[i].queued && m.chunks[i].queue_priority == priority
}

/// The chunk in slot `i` waits and somebody holds a lease on it.
pub open spec fn wanted(m: Model, i: int) -> bool {
    &&& 0 <= i < m.chunks.len()
    &&& m.chunks[i].queued
    &&& m.chunks[i].backing != 0
    &&& m.chunks[i].leases > 0
}

/// A chunk that is queued waits at the urgency that was named last, whether it waited before
/// or not. If it is leased and more urgent than every other that is wanted, it is next.
/// Queueing changes nothing else of it, and no other chunk.
pub proof fn queueing_sets_the_urgency(m: Model, i: int, priority: u32)
    requires
        m.chunks.len() <= 0x8000_0000,
        0 <= i < m.chunks.len(),
        m.chunks[i].backing != 0,
    ensures
        ({
            let n = m.enqueue(i as u32, priority);
            &&& waits(n, i, priority)
            &&& only_slot(m, n, i)
            &&& n.tick == m.tick
            &&& n.stats == m.stats
            &&& n.chunks[i] == (ChunkSlot {
                queued: true,
                queue_priority: n.chunks[i].queue_priority,
                ..m.chunks[i]
            })
            &&& m.chunks[i].leases > 0 && (forall|j: int|
                j != i && #[trigger] wanted(m, j) ==> priority < m.chunks[j].queue_priority)
                ==> n.next_up() == Some(i)
        }),
{
    let n = m.enqueue(i as u32, priority);
    if m.chunks[i].leases > 0 && (forall|j: int|
        j != i && #[trigger] wanted(m, j) ==> priority < m.chunks[j].queue_priority) {
        assert forall|j: int|
            0 <= j < n.chunks.len() && (#[trigger] n.chunks[j]).servable() && j != i implies priority
            < n.chunks[j].queue_priority by {
            assert(wanted(m, j));
        }
        assert(n.chunks[i].servable());
        assert(n.first_urgent(i));
        let w = choose|w: int| n.first_urgent(w);
        assert(n.first_urgent(w));
        assert(n.chunks[w].servable());
    }
}

/// Queueing with a lease of the queue's own does the same, and the queue holds one lease then,
/// however often it is queued.
pub proof fn owned_queueing_sets_the_urgency(m: Model, i: int, priority: u32)
    requires
        m.chunks.len() <= 0x8000_0000,
        0 <= i < m.chunks.len(),
        m.chunks[i].backing != 0,
    ensures
        ({
            let n = m.enqueue_owned(i as u32, priority);
            let c = m.chunks[i];
            let d = n.chunks[i];
            &&& waits(n, i, priority)
            &&& only_slot(m, n, i)
            &&& n.tick == m.tick
            &&& d.queue_leased
            &&& c.queue_leased ==> d.leases == c.leases
            &&& !c.queue_leased && c.leases < u32::MAX ==> d.leases == c.leases + 1
            &&& d == (ChunkSlot {
                queued: d.queued,
                queue_priority: d.queue_priority,
                queue_leased: d.queue_leased,
                leases: d.leases,
                ..c
            })
        }),
{
}

/// A chunk that is taken off the queue waits no more, and the queue's own lease on it, if there
/// is one, goes with it; giving that lease back alone leaves it waiting. Nobody else's lease is
/// touched, and no other chunk.
pub proof fn leaving_the_queue(m: Model, i: int)
    requires
        m.chunks.len() <= 0x8000_0000,
        0 <= i < m.chunks.len(),
    ensures
        ({
            let n = m.dequeue(i as u32);
            let c = m.chunks[i];
            let d = n.chunks[i];
            &&& only_slot(m, n, i)
            &&& n.tick == m.tick
            &&& !d.queued
            &&& !d.queue_leased
            &&& d.leases == (if c.queue_leased && c.leases > 0 {
                c.leases - 1
            } else {
                c.leases as int
            })
            &&& d == (ChunkSlot {
                queued: false,
                queue_leased: false,
                leases: d.leases,
                ..c
            })
        }),
        m.chunks[i].backing != 0 ==> {
            let n = m.release_owned(i as u32);
            let c = m.chunks[i];
            let d = n.chunks[i];
            &&& only_slot(m, n, i)
            &&& !d.queue_leased
            &&& d.leases == (if c.queue_leased && c.leases > 0 {
                c.leases - 1
            } else {
                c.leases as int
            })
            &&& d == (ChunkSlot { queue_leased: false, leases: d.leases, ..c })
        },
{
}

/// The loader is given the most urgent of the chunks that are wanted, and of equally urgent
/// ones the one in the lowest slot; nothing if none is wanted. That one is off the queue then,
/// and so is every chunk that nobody holds; the others wait on as they did.
pub proof fn the_loader_gets_the_most_urgent(m: Model, i: int, j: int)
    requires
        0 <= j < m.chunks.len(),
    ensures
        m.next_up() == Some(i) ==> wanted(m, i),
        m.next_up() == Some(i) && wanted(m, j) && j != i ==> m.chunks[i].queue_priority
            < m.chunks[j].queue_priority || (m.chunks[i].queue_priority
            == m.chunks[j].queue_priority && i < j),
        m.next_up() is None ==> !wanted(m, j),
        m.popped().chunks.len() == m.chunks.len(),
        m.popped().chunks[j] == (ChunkSlot {
            queued: m.popped().chunks[j].queued,
            ..m.chunks[j]
        }),
        wanted(m, j) ==> m.popped().chunks[j].queued == (m.next_up() != Some(j)),
        m.chunks[j].backing != 0 && m.chunks[j].leases == 0 ==> !m.popped().chunks[j].queued,
        m.has_any() <==> m.next_up() is Some,
        wanted(m, j) && m.chunks[j].queue_priority == u32::MAX ==> m.has_lowest(),
        m.has_lowest() ==> exists|k: int| #[trigger]
            wanted(m, k) && m.chunks[k].queue_priority == u32::MAX,
{
    crate::resource::laws::queue_serves_exactly_if_it_has_any(m);
    if m.next_up() is Some {
        let w = choose|w: int| m.first_urgent(w);
        assert(m.first_urgent(w));
        if wanted(m, j) {
            assert(m.chunks[j].servable());
        }
    } else if wanted(m, j) {
        assert(m.chunks[j].servable());
        assert(m.has_any());
    }
    if m.has_lowest() {
        let k = choose|k: int|
            0 <= k < m.chunks.len() && (#[trigger] m.chunks[k]).servable()
                && m.chunks[k].queue_priority == u32::MAX;
        assert(wanted(m, k));
    }
    if wanted(m, j) && m.chunks[j].queue_priority == u32::MAX {
        assert(m.chunks[j].servable());
    }
}

/// A chunk that is looked up by its address and queued waits at that urgency.
pub proof fn queueing_by_address(m: Model, p: usize, i: int, priority: u32)
    requires
        m.chunks.len() <= 0x8000_0000,
        backs_first(m, p, i),
    ensures
        waits(queued_at(m, p, priority), i, priority),
        only_slot(m, queued_at(m, p, priority), i),
        queued_at(m, p, priority).chunks[i].leases == m.chunks[i].leases,
        queued_at(m, p, priority).chunks[i].recency == m.chunks[i].recency,
{
    chunks_are_found_by_address(m, p, i);
}

// ---- eviction ----

/// A chunk can go exactly if it is there, nobody holds a lease on it, it is saved, its asset
/// is not protected, and, if its asset goes tail first, no chunk of the asset has a higher index.
pub proof fn what_can_be_evicted(m: Model, i: int)
    requires
        m.consistent(),
        0 <= i < m.chunks.len(),
    ensures
        m.candidate(i) <==> {
            let c = m.chunks[i];
            &&& c.backing != 0
            &&& c.leases == 0
            &&& !c.dirty
            &&& m.protect == u32::MAX || c.asset != m.protect
            &&& c.asset == u32::MAX || !m.assets[c.asset as int].evict_tail_first || forall|j: int|
                0 <= j < m.chunks.len() && (#[trigger] m.chunks[j]).backing != 0
                    && m.chunks[j].asset == c.asset ==> m.chunks[j].index <= c.index
        },
{
    assert(m.chunks[i].backing != 0 ==> m.chunks[i].asset == NONE || m.chunks[i].asset
        < m.assets.len());
}

/// Ranks are compared by their first number, then by the second, then by the third.
pub proof fn ranks_are_compared_from_the_left(a: Rank, b: Rank, c: Rank)
    ensures
        a.0 < b.0 ==> rank_before(a, b),
        a.0 == b.0 && a.1 < b.1 ==> rank_before(a, b),
        a.0 == b.0 && a.1 == b.1 ==> (rank_before(a, b) <==> a.2 < b.2),
        !(rank_before(a, b) && rank_before(b, a)),
        rank_before(a, b) || rank_before(b, a) || a == b,
        rank_before(a, b) && rank_before(b, c) ==> rank_before(a, c),
{
}

/// Of those that can go the one of the lowest rank goes, and of equal ranks the one in the
/// lowest slot; nothing goes only if nothing can.
pub proof fn the_lowest_rank_goes(m: Model, ranks: Seq<Rank>, r: Option<int>, i: int, j: int)
    requires
        m.victim(ranks, None, r),
        0 <= j < m.chunks.len(),
        m.candidate(j),
    ensures
        r is Some,
        r == Some(i) ==> 0 <= i < m.chunks.len() && m.candidate(i),
        r == Some(i) && j != i ==> {
            let a = ranks[i];
            let b = ranks[j];
            ||| a.0 < b.0
            ||| a.0 == b.0 && a.1 < b.1
            ||| a.0 == b.0 && a.1 == b.1 && a.2 < b.2
            ||| a == b && i < j
        },
{
}

/// What a chunk is ranked by: its size, when it was used, and what its asset says of its cost
/// and of the references to it; an adopted chunk brings its own cost and has no references.
pub proof fn what_chunks_are_ranked_by(m: Model, i: int)
    ensures
        m.rank_input(i).size == m.chunks[i].size,
        m.rank_input(i).recency == m.chunks[i].recency,
        m.chunks[i].asset == u32::MAX ==> m.rank_input(i).cost == m.chunks[i].cost && m.rank_input(
            i,
        ).soft_refs == 0,
        m.chunks[i].asset != u32::MAX ==> {
            let a = m.assets[m.chunks[i].asset as int];
            m.rank_input(i).cost == a.source.cost && m.rank_input(i).soft_refs == a.soft_refs
        },
{
}

/// The owner of an asset is told of the eviction of its chunk through the asset's callback,
/// with its context and the chunk's index; that of an adopted chunk through the chunk's own,
/// with its address. Without a callback nobody is told.
pub proof fn who_is_told_of_an_eviction(m: Model, i: int, a: AssetSlot, index: u32)
    ensures
        m.evicted_record(i).notice == m.notice(i),
        m.evicted_record(i).backing == m.chunks[i].backing,
        m.evicted_record(i).asset == m.chunks[i].asset,
        a.source.on_evict is None ==> asset_notice(a, index) == Notice::Silent,
        a.source.on_evict is Some ==> asset_notice(a, index) is Owner && asset_notice(
            a,
            index,
        )->Owner_callback == a.source.on_evict->0 && asset_notice(a, index)->owner == a.owner
            && asset_notice(a, index)->index == index && asset_notice(a, index)->Owner_ctx
            == a.source.ctx,
        m.chunks[i].asset != u32::MAX ==> m.notice(i) == asset_notice(
            m.assets[m.chunks[i].asset as int],
            m.chunks[i].index,
        ),
        m.chunks[i].asset == u32::MAX && m.chunks[i].adopt_evict is None ==> m.notice(i)
            == Notice::Silent,
        m.chunks[i].asset == u32::MAX && m.chunks[i].adopt_evict is Some ==> m.notice(i) is Adopter
            && m.notice(i)->Adopter_callback == m.chunks[i].adopt_evict->0 && m.notice(
            i,
        )->Adopter_ctx == m.chunks[i].adopt_ctx && m.notice(i)->backing == m.chunks[i].backing,
{
}

/// An evicted chunk leaves its slot as if nothing had ever been there; no other chunk changes,
/// and the eviction is counted, once in all and once in the class of its cost.
pub proof fn evictions_empty_one_slot(m: Model, i: int)
    requires
        0 <= i < m.chunks.len(),
    ensures
        ({
            let n = m.evicted(i);
            let d = n.chunks[i];
            let cost = if m.chunks[i].asset == u32::MAX {
                m.chunks[i].cost
            } else {
                m.assets[m.chunks[i].asset as int].source.cost
            };
            let class = if cost < 8 {
                cost as int
            } else {
                7
            };
            &&& d.backing == 0
            &&& d.leases == 0
            &&& !d.ready
            &&& !d.dirty
            &&& !d.queued
            &&& !d.queue_leased
            &&& d.generation == 0
            &&& n.chunks.len() == m.chunks.len()
            &&& forall|j: int|
                0 <= j < m.chunks.len() && j != i ==> (#[trigger] n.chunks[j]) == m.chunks[j]
            &&& n.assets == m.assets
            &&& n.tick == m.tick
            &&& n.protect == m.protect
            &&& n.alloc_gen == m.alloc_gen
            &&& m.stats.evictions < u64::MAX ==> n.stats.evictions == m.stats.evictions + 1
            &&& m.stats.evictions_by_cost@[class] < u64::MAX ==> n.stats.evictions_by_cost@[class]
                == m.stats.evictions_by_cost@[class] + 1
            &&& forall|k: int|
                0 <= k < 8 && k != class ==> (#[trigger] n.stats.evictions_by_cost@[k])
                    == m.stats.evictions_by_cost@[k]
            &&& n.stats.alloc_failures == m.stats.alloc_failures
            &&& n.stats.acquires == m.stats.acquires
            &&& n.stats.requests == m.stats.requests
        }),
{
}

/// A chunk that its owner drops leaves its slot empty, and is not counted as evicted.
pub proof fn dropping_empties_the_slot(m: Model, p: usize, i: int)
    requires
        backs_first(m, p, i),
    ensures
        m.evict_chunk(p).chunks[i].backing == 0,
        m.evict_chunk(p).chunks[i].leases == 0,
        !m.evict_chunk(p).chunks[i].queued,
        forall|j: int|
            0 <= j < m.chunks.len() && j != i ==> (#[trigger] m.evict_chunk(p).chunks[j])
                == m.chunks[j],
        m.evict_chunk(p).stats.evictions == m.stats.evictions,
        m.evict_chunk(p).assets == m.assets,
        m.evict_chunk(p).tick == m.tick,
{
    chunks_are_found_by_address(m, p, i);
}

/// Where nothing but evictions happens, each chunk is untouched or gone, and only one that
/// nobody held, that was saved and was not protected is gone.
pub proof fn evictions_spare_what_is_held(m: Model, n: Model, i: int)
    requires
        only_evicted(m, n),
        0 <= i < m.chunks.len(),
    ensures
        n.chunks.len() == m.chunks.len(),
        n.assets == m.assets,
        n.tick == m.tick,
        n.protect == m.protect,
        n.alloc_gen == m.alloc_gen,
        n.chunks[i] == m.chunks[i] || n.chunks[i].backing == 0,
        n.chunks[i] != m.chunks[i] ==> m.chunks[i].backing != 0 && m.chunks[i].leases == 0
            && !m.chunks[i].dirty && (m.protect == u32::MAX || m.chunks[i].asset != m.protect),
{
    assert(kept_or_evicted(m.chunks[i], n.chunks[i], m.protect));
}

// ---- memory and callbacks ----

/// A chunk's memory comes from the slab if its asset is backed by one and there is one, and
/// from the heap otherwise; adopted chunks are on the heap. An asset protects its own chunks
/// while it gets one if it asked for that.
pub proof fn where_memory_comes_from(m: Model, asset: u32)
    ensures
        asset == u32::MAX ==> m.slab_of(asset) == 0,
        asset != u32::MAX && m.assets[asset as int].source.backing == 1 ==> m.slab_of(asset)
            == m.slab,
        asset != u32::MAX && m.assets[asset as int].source.backing != 1 ==> m.slab_of(asset) == 0,
        m.assets[asset as int].self_protect ==> m.protection(asset) == asset,
        !m.assets[asset as int].self_protect ==> m.protection(asset) == u32::MAX,
        m.usable(asset) <==> asset < m.assets.len() && m.assets[asset as int].in_use,
        m.requestable(asset) <==> asset < m.assets.len() && m.assets[asset as int].in_use
            && m.assets[asset as int].source.construct is Some,
{
}

// ---- reserving ----

/// The chunk in slot `i` is new: it has the address, the key and the size it was asked for,
/// one lease, and the next generation; it was used last, and nothing is queued or unsaved.
pub open spec fn newly_there(
    m: Model,
    n: Model,
    i: int,
    p: usize,
    asset: u32,
    index: u32,
    size: usize,
) -> bool {
    let d = n.chunks[i];
    &&& 0 <= i < m.chunks.len()
    &&& n.chunks.len() == m.chunks.len()
    &&& d.backing == p
    &&& d.asset == asset
    &&& d.index == index
    &&& d.leases == 1
    &&& size <= u32::MAX ==> d.size == size
    &&& m.alloc_gen < u32::MAX ==> d.generation == m.alloc_gen + 1 && n.alloc_gen == m.alloc_gen + 1
    &&& !d.dirty
    &&& !d.queued
    &&& !d.queue_leased
    &&& n.assets == m.assets
    &&& n.protect == m.protect
    &&& clocked(m) && m.tick < u64::MAX ==> forall|j: int|
        0 <= j < m.chunks.len() && j != i ==> d.recency > (#[trigger] n.chunks[j]).recency
    &&& forall|j: int|
        0 <= j < m.chunks.len() && j != i ==> (#[trigger] n.chunks[j]) == m.chunks[j] || (
        n.chunks[j].backing == 0 && m.chunks[j].leases == 0 && !m.chunks[j].dirty)
}

/// A request gives the chunk of that key: where it is, if it is there; otherwise newly, without
/// its data. It gives nothing if the asset is not defined or cannot be requested, and changes
/// nothing then. If it gives nothing else, at most evictions happened.
pub proof fn what_a_request_gives(
    m: Model,
    asset: u32,
    index: u32,
    size: usize,
    r: usize,
    n: Model,
    i: int,
)
    requires
        m.consistent(),
        m.unique_keys(),
        asset != u32::MAX,
        request_outcome(m, asset, index, size, r, n),
    ensures
        asset >= m.assets.len() || !m.assets[asset as int].in_use
            || m.assets[asset as int].source.construct is None ==> r == 0 && n == m,
        asset < m.assets.len() && m.assets[asset as int].in_use
            && m.assets[asset as int].source.construct is Some && 0 <= i < m.chunks.len()
            && m.chunks[i].backing != 0 && m.chunks[i].asset == asset && m.chunks[i].index == index
            ==> r == m.chunks[i].backing && leased_and_used(m, n, i),
        r != 0 && (forall|j: int|
            0 <= j < m.chunks.len() ==> (#[trigger] m.chunks[j]).backing == 0 || m.chunks[j].asset
                != asset || m.chunks[j].index != index) ==> exists|k: int| #[trigger]
            newly_there(m, n, k, r, asset, index, size) && !n.chunks[k].ready && (
            m.chunks[k].backing == 0 || m.chunks[k].leases == 0 && !m.chunks[k].dirty),
        r == 0 ==> n.chunks.len() == m.chunks.len() && n.assets == m.assets && forall|j: int|
            0 <= j < m.chunks.len() ==> (#[trigger] n.chunks[j]) == m.chunks[j] || (
            n.chunks[j].backing == 0 && m.chunks[j].leases == 0 && !m.chunks[j].dirty),
{
    reveal(request_outcome);
    let prot = m.protection(asset);
    if m.requestable(asset) {
        if 0 <= i < m.chunks.len() && m.chunks[i].backing != 0 && m.chunks[i].asset == asset
            && m.chunks[i].index == index {
            chunks_are_found_by_key(m, asset, index, i);
            leasing_makes_most_recent(m, i, size, n);
        }
        lemma_resident(m, asset, index);
        if m.resident(asset, index) is None {
            if r == 0 {
                let x = m.protecting(prot);
                let y = n.protecting(prot);
                assert forall|j: int| 0 <= j < m.chunks.len() implies (#[trigger] n.chunks[j])
                    == m.chunks[j] || (n.chunks[j].backing == 0 && m.chunks[j].leases == 0
                    && !m.chunks[j].dirty) by {
                    assert(kept_or_evicted(x.chunks[j], y.chunks[j], x.protect));
                }
            } else {
                let k = choose|k: int|
                    #[trigger] newly_reserved(m, n, k, r, asset, index, size, false, prot);
                lemma_newly_there(m, n, k, r, asset, index, size, false, prot);
            }
        }
    }
}

proof fn lemma_newly_there(
    m: Model,
    n: Model,
    k: int,
    r: usize,
    asset: u32,
    index: u32,
    size: usize,
    ready: bool,
    prot: u32,
)
    requires
        newly_reserved(m, n, k, r, asset, index, size, ready, prot),
    ensures
        newly_there(m, n, k, r, asset, index, size),
        n.chunks[k].ready == ready,
        m.chunks[k].backing == 0 || m.chunks[k].leases == 0 && !m.chunks[k].dirty,
{
    assert forall|j: int| 0 <= j < m.chunks.len() && j != k implies (#[trigger] n.chunks[j])
        == m.chunks[j] || (n.chunks[j].backing == 0 && m.chunks[j].leases == 0
        && !m.chunks[j].dirty) by {
        assert(kept_or_evicted(m.chunks[j], n.chunks[j], prot));
    }
    if clocked(m) && m.tick < u64::MAX {
        assert forall|j: int| 0 <= j < m.chunks.len() && j != k implies n.chunks[k].recency > (
        #[trigger] n.chunks[j]).recency by {
            assert(kept_or_evicted(m.chunks[j], n.chunks[j], prot));
            assert(m.chunks[j].recency <= m.tick);
        }
    }
}

/// An acquire gives the chunk of that key: where it is, if it is there; otherwise newly, with
/// its data. It gives nothing if the asset is not defined, and changes nothing then.
pub proof fn what_an_acquire_gives(
    m: Model,
    asset: u32,
    index: u32,
    size: usize,
    r: usize,
    n: Model,
    i: int,
)
    requires
        m.consistent(),
        m.unique_keys(),
        asset != u32::MAX,
        acquire_outcome(m, asset, index, size, r, n),
    ensures
        asset >= m.assets.len() || !m.assets[asset as int].in_use ==> r == 0 && n == m,
        asset < m.assets.len() && m.assets[asset as int].in_use && 0 <= i < m.chunks.len()
            && m.chunks[i].backing != 0 && m.chunks[i].asset == asset && m.chunks[i].index == index
            ==> r == m.chunks[i].backing && leased_and_used(m, n, i),
        r != 0 && (forall|j: int|
            0 <= j < m.chunks.len() ==> (#[trigger] m.chunks[j]).backing == 0 || m.chunks[j].asset
                != asset || m.chunks[j].index != index) ==> exists|k: int| #[trigger]
            newly_there(m, n, k, r, asset, index, size) && n.chunks[k].ready && (
            m.chunks[k].backing == 0 || m.chunks[k].leases == 0 && !m.chunks[k].dirty),
        r == 0 ==> n.chunks.len() == m.chunks.len() && n.assets == m.assets && forall|j: int|
            0 <= j < m.chunks.len() ==> (#[trigger] n.chunks[j]) == m.chunks[j] || (
            n.chunks[j].backing == 0 && m.chunks[j].leases == 0 && !m.chunks[j].dirty),
{
    reveal(acquire_outcome);
    let prot = m.protection(asset);
    if m.usable(asset) {
        if 0 <= i < m.chunks.len() && m.chunks[i].backing != 0 && m.chunks[i].asset == asset
            && m.chunks[i].index == index {
            chunks_are_found_by_key(m, asset, index, i);
            leasing_makes_most_recent(m, i, size, n);
        }
        lemma_resident(m, asset, index);
        if m.resident(asset, index) is None {
            if r == 0 {
                let x = Model { tick: n.tick, alloc_gen: n.alloc_gen, ..m.protecting(prot) };
                let y = n.protecting(prot);
                assert forall|j: int| 0 <= j < m.chunks.len() implies (#[trigger] n.chunks[j])
                    == m.chunks[j] || (n.chunks[j].backing == 0 && m.chunks[j].leases == 0
                    && !m.chunks[j].dirty) by {
                    assert(kept_or_evicted(x.chunks[j], y.chunks[j], x.protect));
                }
            } else {
                let k = choose|k: int|
                    #[trigger] newly_reserved(m, n, k, r, asset, index, size, true, prot);
                lemma_newly_there(m, n, k, r, asset, index, size, true, prot);
            }
        }
    }
}

/// An adopted block is in its slot as it was handed over: ready, without a lease, under no key,
/// with its own cost and callback, and used last.
pub proof fn what_adopting_puts_there(
    m: Model,
    n: Model,
    i: int,
    p: usize,
    size: usize,
    cost: u32,
    ctx: usize,
    on_evict: Option<usize>,
)
    requires
        0 <= i < m.chunks.len(),
    ensures
        ({
            let t = m.adopted(i, p, size, cost, ctx, on_evict);
            let d = t.chunks[i];
            &&& d.backing == p
            &&& d.asset == u32::MAX
            &&& d.leases == 0
            &&& d.ready
            &&& !d.dirty
            &&& !d.queued
            &&& d.cost == cost
            &&& d.adopt_ctx == ctx
            &&& d.adopt_evict == on_evict
            &&& size <= u32::MAX ==> d.size == size
            &&& m.alloc_gen < u32::MAX ==> d.generation == m.alloc_gen + 1
            &&& m.stats.adopts < u64::MAX ==> t.stats.adopts == m.stats.adopts + 1
            &&& t.chunks.len() == m.chunks.len()
            &&& t.chains == m.chains
            &&& forall|j: int|
                0 <= j < m.chunks.len() && j != i ==> (#[trigger] t.chunks[j]) == m.chunks[j]
            &&& clocked(m) && m.tick < u64::MAX ==> forall|j: int|
                0 <= j < m.chunks.len() && j != i ==> d.recency > (#[trigger] t.chunks[j]).recency
        }),
        ({
            let d = adopted_in(n, i, p, size, cost, ctx, on_evict);
            &&& d.backing == p
            &&& d.asset == u32::MAX
            &&& d.leases == 0
            &&& d.ready
            &&& d.cost == cost
            &&& d.adopt_ctx == ctx
            &&& d.adopt_evict == on_evict
            &&& d.generation == n.alloc_gen
            &&& d.recency == n.tick
        }),
{
    let t = m.adopted(i, p, size, cost, ctx, on_evict);
    if clocked(m) && m.tick < u64::MAX {
        assert forall|j: int| 0 <= j < m.chunks.len() && j != i implies t.chunks[i].recency > (
        #[trigger] t.chunks[j]).recency by {
            assert(m.chunks[j].recency <= m.tick);
        }
    }
}

/// A chunk that takes a free slot: the address, key and size it was given, one lease, ready or
/// not as was said, the next generation, and used last. No other chunk changes.
pub proof fn what_taking_a_slot_puts_there(
    m: Model,
    i: int,
    p: usize,
    asset: u32,
    index: u32,
    size: usize,
    ready: bool,
)
    requires
        0 <= i < m.chunks.len(),
    ensures
        newly_there(m, m.taken(i, p, asset, index, size, ready), i, p, asset, index, size),
        m.taken(i, p, asset, index, size, ready).chunks[i].ready == ready,
        m.taken(i, p, asset, index, size, ready).stats == m.stats,
        forall|j: int|
            0 <= j < m.chunks.len() && j != i ==> (#[trigger] m.taken(
                i,
                p,
                asset,
                index,
                size,
                ready,
            ).chunks[j]) == m.chunks[j],
{
    let t = m.taken(i, p, asset, index, size, ready);
    if clocked(m) && m.tick < u64::MAX {
        assert forall|j: int| 0 <= j < m.chunks.len() && j != i implies t.chunks[i].recency > (
        #[trigger] t.chunks[j]).recency by {
            assert(m.chunks[j].recency <= m.tick);
        }
    }
}

// ---- retiring ----

/// A retired asset has no chunk left, leased or not, and its slot can be used again. Every other
/// chunk and every other asset is as it was. Its chunks go in the order of their slots, or from
/// the highest index down.
pub proof fn retiring_drops_all_of_an_asset(
    m: Model,
    asset: u32,
    n: Model,
    order: Seq<usize>,
    i: int,
    a: int,
    k: int,
    l: int,
)
    requires
        retired(m, asset, n),
        retired_in_order(m, asset, order),
        asset < m.assets.len(),
        0 <= i < m.chunks.len(),
        0 <= a < m.assets.len(),
        0 <= k < l < order.len(),
    ensures
        n.chunks.len() == m.chunks.len(),
        m.chunks[i].backing != 0 && m.chunks[i].asset == asset ==> n.chunks[i].backing == 0
            && n.chunks[i].leases == 0,
        m.chunks[i].backing == 0 || m.chunks[i].asset != asset ==> n.chunks[i] == m.chunks[i],
        !n.assets[asset as int].in_use,
        n.assets.len() == m.assets.len(),
        a != asset ==> n.assets[a] == m.assets[a],
        n.tick == m.tick,
        n.stats.evictions == m.stats.evictions,
        n.stats.evictions_by_cost == m.stats.evictions_by_cost,
        n.alloc_gen == m.alloc_gen,
        order[k] < m.chunks.len() && m.chunks[order[k] as int].backing != 0
            && m.chunks[order[k] as int].asset == asset,
        m.assets[asset as int].evict_tail_first ==> m.chunks[order[k] as int].index
            >= m.chunks[order[l] as int].index,
        !m.assets[asset as int].evict_tail_first ==> order[k] < order[l],
        order[k] != order[l],
{
    assert(m.of_asset(order[k] as int, asset));
    assert(order[l] < m.chunks.len());
}

// ---- counters ----

/// Each search is counted once, with the slots that it went past.
pub proof fn searches_are_counted(s: Stats, slots: nat)
    requires
        slots <= u64::MAX,
    ensures
        s.scan_resident_calls < u64::MAX ==> s.scanned_resident(slots).scan_resident_calls
            == s.scan_resident_calls + 1,
        s.scan_resident_slots + slots <= u64::MAX ==> s.scanned_resident(slots).scan_resident_slots
            == s.scan_resident_slots + slots,
        s.scan_ptr_calls < u64::MAX ==> s.scanned_ptr(slots).scan_ptr_calls == s.scan_ptr_calls + 1,
        s.scan_ptr_slots + slots <= u64::MAX ==> s.scanned_ptr(slots).scan_ptr_slots
            == s.scan_ptr_slots + slots,
        s.scan_free_calls < u64::MAX ==> s.scanned_free(slots).scan_free_calls == s.scan_free_calls
            + 1,
        s.scan_free_slots + slots <= u64::MAX ==> s.scanned_free(slots).scan_free_slots
            == s.scan_free_slots + slots,
        s.scan_evict_calls < u64::MAX ==> s.scanned_evict(slots).scan_evict_calls
            == s.scan_evict_calls + 1,
        s.scan_evict_slots + slots <= u64::MAX ==> s.scanned_evict(slots).scan_evict_slots
            == s.scan_evict_slots + slots,
{
}

/// A table starts with nothing in it: no asset is in use, no slot has a chunk, and nothing is
/// leased, queued, ready or unsaved.
pub proof fn new_slots_are_empty()
    ensures
        !AssetSlot::spec_empty().in_use,
        AssetSlot::spec_empty().soft_refs == 0,
        !AssetSlot::spec_empty().evict_tail_first,
        !AssetSlot::spec_empty().self_protect,
        AssetSlot::spec_empty().source.construct is None,
        AssetSlot::spec_empty().source.materialize is None,
        AssetSlot::spec_empty().source.on_evict is None,
        AssetSlot::spec_empty().source.backing == 0,
        ChunkSlot::spec_empty().backing == 0,
        ChunkSlot::spec_empty().asset == u32::MAX,
        ChunkSlot::spec_empty().leases == 0,
        !ChunkSlot::spec_empty().dirty,
        !ChunkSlot::spec_empty().ready,
        !ChunkSlot::spec_empty().queued,
        !ChunkSlot::spec_empty().queue_leased,
        ChunkSlot::spec_empty().recency == 0,
        ChunkSlot::spec_empty().generation == 0,
        ChunkSlot::spec_empty().adopt_evict is None,
        NONE == u32::MAX,
        BACKING_SLAB == 1,
{
}

/// What moves the clock: a lease that is added, a touch, a lookup that finds its chunk, ready or
/// not, and a retained token whose slot exists, current or not. Everything else leaves the clock
/// alone.
pub proof fn the_clock_counts_uses(
    m: Model,
    p: usize,
    asset: u32,
    index: u32,
    slot: u32,
    gen: u32,
    priority: u32,
    i: int,
)
    requires
        m.consistent(),
        m.unique_keys(),
        asset != u32::MAX,
        m.tick < u64::MAX,
    ensures
        m.add_lease(p).tick == m.tick + 1,
        m.touch(p).tick == m.tick + 1,
        m.hit(i).tick == m.tick + 1,
        slot < m.chunks.len() ==> m.retain(slot, gen).tick == m.tick + 1,
        slot >= m.chunks.len() ==> m.retain(slot, gen).tick == m.tick,
        0 <= i < m.chunks.len() && m.chunks[i].backing != 0 && m.chunks[i].asset == asset
            && m.chunks[i].index == index ==> m.try_acquire(asset, index).tick == m.tick + 1,
        (forall|j: int|
            0 <= j < m.chunks.len() ==> (#[trigger] m.chunks[j]).backing == 0 || m.chunks[j].asset
                != asset || m.chunks[j].index != index) ==> m.try_acquire(asset, index).tick
            == m.tick,
        m.release(p).tick == m.tick,
        m.set_dirty(p, true).tick == m.tick,
        m.set_dirty(p, false).tick == m.tick,
        m.mark_ready(p).tick == m.tick,
        m.evict_chunk(p).tick == m.tick,
        m.release_slot(slot, gen).tick == m.tick,
        m.enqueue(slot, priority).tick == m.tick,
        m.enqueue_owned(slot, priority).tick == m.tick,
        m.release_owned(slot).tick == m.tick,
        m.dequeue(slot).tick == m.tick,
        m.popped().tick == m.tick,
{
    lemma_resident(m, asset, index);
    if 0 <= i < m.chunks.len() && m.chunks[i].backing != 0 && m.chunks[i].asset == asset
        && m.chunks[i].index == index {
        chunks_are_found_by_key(m, asset, index, i);
    }
}

/// Every request and acquire of a usable asset is counted once, and those that find their chunk
/// count as nothing else but, for an acquire, as a hit.
pub proof fn requests_are_counted(
    m: Model,
    asset: u32,
    index: u32,
    size: usize,
    r: usize,
    n: Model,
    i: int,
)
    requires
        m.consistent(),
        m.unique_keys(),
        asset < m.assets.len(),
        m.assets[asset as int].in_use,
        0 <= i < m.chunks.len(),
        m.chunks[i].backing != 0,
        m.chunks[i].asset == asset,
        m.chunks[i].index == index,
        m.stats.requests < u64::MAX,
        m.stats.acquires < u64::MAX,
        m.stats.acquire_hits < u64::MAX,
    ensures
        request_outcome(m, asset, index, size, r, n)
            && m.assets[asset as int].source.construct is Some ==> {
            &&& n.stats.requests == m.stats.requests + 1
            &&& n.stats.acquires == m.stats.acquires
            &&& n.stats.acquire_hits == m.stats.acquire_hits
            &&& n.stats.materializes == m.stats.materializes
            &&& n.stats.evictions == m.stats.evictions
        },
        acquire_outcome(m, asset, index, size, r, n) ==> {
            &&& n.stats.requests == m.stats.requests
            &&& n.stats.acquires == m.stats.acquires + 1
            &&& n.stats.acquire_hits == m.stats.acquire_hits + 1
            &&& n.stats.materializes == m.stats.materializes
            &&& n.stats.evictions == m.stats.evictions
        },
        request_begun(m, asset, index).stats.requests == m.stats.requests + 1,
        request_begun(m, asset, index).stats.acquires == m.stats.acquires,
        acquire_begun(m, asset, index).stats.acquires == m.stats.acquires + 1,
        acquire_begun(m, asset, index).stats.acquire_hits == m.stats.acquire_hits,
        acquire_begun(m, asset, index).stats.requests == m.stats.requests,
{
    reveal(request_outcome);
    reveal(acquire_outcome);
    chunks_are_found_by_key(m, asset, index, i);
}

/// A search by address looks at the slots up to the one it finds, at all of them where it finds
/// none, and at none for the address 0; a search for a free slot likewise.
pub proof fn searches_stop_where_they_find(m: Model, p: usize, i: int)
    requires
        m.chunks.len() <= u64::MAX,
        m.stats.scan_ptr_slots + m.chunks.len() <= u64::MAX,
        m.stats.scan_free_slots + m.chunks.len() <= u64::MAX,
    ensures
        m.searched_ptr(0).stats.scan_ptr_slots == m.stats.scan_ptr_slots,
        backs_first(m, p, i) ==> m.searched_ptr(p).stats.scan_ptr_slots == m.stats.scan_ptr_slots
            + i + 1,
        p != 0 && (forall|j: int|
            0 <= j < m.chunks.len() ==> (#[trigger] m.chunks[j]).backing != p) ==> m.searched_ptr(
            p,
        ).stats.scan_ptr_slots == m.stats.scan_ptr_slots + m.chunks.len(),
        0 <= i < m.chunks.len() && m.chunks[i].backing == 0 && (forall|j: int|
            0 <= j < i ==> (#[trigger] m.chunks[j]).backing != 0)
            ==> m.searched_free().stats.scan_free_slots == m.stats.scan_free_slots + i + 1,
        (forall|j: int| 0 <= j < m.chunks.len() ==> (#[trigger] m.chunks[j]).backing != 0)
            ==> m.searched_free().stats.scan_free_slots == m.stats.scan_free_slots
            + m.chunks.len(),
{
    lemma_first_pos(m.chunks, at_address(p));
    lemma_first_pos(m.chunks, at_address(0));
    if backs_first(m, p, i) {
        lemma_first_pos_is(m.chunks, at_address(p), i);
    }
    if 0 <= i < m.chunks.len() && m.chunks[i].backing == 0 && (forall|j: int|
        0 <= j < i ==> (#[trigger] m.chunks[j]).backing != 0) {
        lemma_first_pos_is(m.chunks, at_address(0), i);
    }
}

/// The chunk that was last put into a slot is the first that a search for its key looks at.
pub proof fn new_chunks_are_looked_at_first(m: Model, i: int, c: ChunkSlot)
    requires
        m.consistent(),
        0 <= i < m.chunks.len(),
        c.backing != 0,
        c.asset != u32::MAX,
    ensures
        m.placed(i, c).resident(c.asset, c.index) == Some(i),
        m.placed(i, c).resident_visits(c.asset, c.index) == 1,
{
    let n = m.placed(i, c);
    let b = m.bucket(c.asset, c.index);
    lemma_key_bucket(c.asset, c.index, m.chains.len());
    assert(n.chains[b][0] == i);
    assert(numbered_with_key(n.chunks, c.asset, c.index)(i));
}

/// Slot `a` of the asset table is all that differs between `m` and `n`.
pub open spec fn only_asset(m: Model, n: Model, a: int) -> bool {
    &&& n.assets.len() == m.assets.len()
    &&& forall|j: int| 0 <= j < m.assets.len() && j != a ==> (#[trigger] n.assets[j]) == m.assets[j]
    &&& n == (Model { assets: n.assets, ..m })
}

/// A new asset has the owner and the source it was given, no soft references, and whatever
/// settings its slot had.
pub proof fn what_defining_puts_there(m: Model, i: int, owner: usize, source: Source)
    requires
        0 <= i < m.assets.len() <= u32::MAX,
    ensures
        only_asset(m, m.defined(i, owner, source), i),
        m.defined(i, owner, source).assets[i].in_use,
        m.defined(i, owner, source).assets[i].owner == owner,
        m.defined(i, owner, source).assets[i].source == source,
        m.defined(i, owner, source).assets[i].soft_refs == 0,
        m.defined(i, owner, source).assets[i].evict_tail_first == m.assets[i].evict_tail_first,
        m.defined(i, owner, source).assets[i].self_protect == m.assets[i].self_protect,
{
}

/// Soft references add up, go down to none at the lowest, and concern one asset; as many given
/// back as were taken leave things as they were. An asset that is not in the table has none.
pub proof fn references_add_up(m: Model, asset: u32, delta: i32)
    ensures
        asset >= m.assets.len() ==> m.referenced(asset, delta) == m,
        asset < m.assets.len() ==> {
            let s = m.assets[asset as int].soft_refs;
            let n = m.referenced(asset, delta);
            &&& only_asset(m, n, asset as int)
            &&& n.assets[asset as int].in_use == m.assets[asset as int].in_use
            &&& n.assets[asset as int].source == m.assets[asset as int].source
            &&& 0 <= s + delta <= u32::MAX ==> n.assets[asset as int].soft_refs == s + delta
            &&& s + delta < 0 ==> n.assets[asset as int].soft_refs == 0
            &&& 0 <= delta && s + delta <= u32::MAX ==> n.referenced(asset, (-delta) as i32) == m
        },
{
    if asset < m.assets.len() && 0 <= delta {
        let s = m.assets[asset as int].soft_refs;
        if s + delta <= u32::MAX {
            let n = m.referenced(asset, delta);
            assert(n.referenced(asset, (-delta) as i32).assets =~= m.assets);
        }
    }
}

/// A setting of an asset changes that setting of that asset, and nothing if the asset is not in
/// the table.
pub proof fn settings_change_one_thing(
    m: Model,
    asset: u32,
    construct: Option<usize>,
    on: bool,
)
    ensures
        asset >= m.assets.len() ==> m.constructing(asset, construct) == m && m.tail_first(asset, on)
            == m && m.self_protecting(asset, on) == m,
        asset < m.assets.len() ==> {
            let a = m.assets[asset as int];
            let c = m.constructing(asset, construct);
            let t = m.tail_first(asset, on);
            let p = m.self_protecting(asset, on);
            &&& only_asset(m, c, asset as int)
            &&& only_asset(m, t, asset as int)
            &&& only_asset(m, p, asset as int)
            &&& c.assets[asset as int].source.construct == construct
            &&& c.assets[asset as int].source.materialize == a.source.materialize
            &&& c.assets[asset as int].source.on_evict == a.source.on_evict
            &&& c.assets[asset as int].evict_tail_first == a.evict_tail_first
            &&& c.assets[asset as int].self_protect == a.self_protect
            &&& t.assets[asset as int].evict_tail_first == on
            &&& t.assets[asset as int].self_protect == a.self_protect
            &&& t.assets[asset as int].source == a.source
            &&& p.assets[asset as int].self_protect == on
            &&& p.assets[asset as int].evict_tail_first == a.evict_tail_first
            &&& p.assets[asset as int].source == a.source
            &&& c.assets[asset as int].in_use == a.in_use
            &&& t.assets[asset as int].in_use == a.in_use
            &&& p.assets[asset as int].in_use == a.in_use
        },
{
}

/// The leases of a chunk that are not the queue's own: one fewer than all of them where the
/// queue holds one, and otherwise all.
pub proof fn the_queues_lease_is_not_counted(c: ChunkSlot)
    ensures
        c.queue_leased && c.leases > 0 ==> c.queue_released().leases == c.leases - 1,
        !c.queue_leased ==> c.queue_released().leases == c.leases,
{
}

} // verus!
