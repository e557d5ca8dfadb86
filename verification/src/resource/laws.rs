//! What holds of the cache as a whole.
use crate::resource::facade::{
    acquire_outcome, kept_or_evicted, newly_reserved, only_evicted, pin_token_of, request_outcome,
    token_gen, token_of, token_slot, Backend, Resource,
};
use crate::resource::index::{lemma_key_bucket, NONE};
use crate::resource::model::{
    at_address, first_pos, lemma_first_pos, lemma_first_pos_is, lemma_resident, lemma_slot_at,
    numbered_with_key, with_key, Model,
};
use crate::resource::types::{ChunkSlot, Rank};
use vstd::prelude::*;

verus! {

// ---- the index ----

/// While no key is held twice, a lookup through the index finds what a scan of the whole
/// table finds.
pub proof fn index_agrees_with_a_scan(m: Model, asset: u32, index: u32)
    requires
        m.consistent(),
        m.unique_keys(),
    ensures
        m.resident(asset, index) == ({
            let k = first_pos(m.chunks, with_key(asset, index));
            if k < m.chunks.len() {
                Some(k as int)
            } else {
                None
            }
        }),
{
    lemma_resident(m, asset, index);
    let p = with_key(asset, index);
    lemma_first_pos(m.chunks, p);
    let k = first_pos(m.chunks, p) as int;
    if asset != NONE {
        match m.resident(asset, index) {
            Some(i) => {
                if k < m.chunks.len() {
                    assert(p(m.chunks[k]));
                    assert(m.keyed(k));
                } else {
                    assert(!p(m.chunks[i]));
                }
            },
            None => {
                if k < m.chunks.len() {
                    assert(p(m.chunks[k]));
                }
            },
        }
    }
}

/// In a cache that is in order, as every operation leaves it, at most one slot holds a key,
/// and a lookup finds that slot, if there is one, and nothing otherwise.
pub proof fn lookups_find_the_one_slot<B: Backend>(r: Resource<B>, asset: u32, index: u32, i: int)
    requires
        r.wf(),
        asset != NONE,
        0 <= i < r@.chunks.len(),
    ensures
        r@.resident(asset, index) == Some(i) <==> r@.chunks[i].holds(asset, index),
        r@.resident(asset, index) is None <==> forall|j: int|
            0 <= j < r@.chunks.len() ==> !(#[trigger] r@.chunks[j]).holds(asset, index),
{
    r.lemma_wf();
    lemma_resident(r@, asset, index);
    if r@.chunks[i].holds(asset, index) {
        assert(r@.keyed(i));
    }
}

/// An occupied slot of an asset is in the chain of its own bucket, at one place, and in no
/// other chain.
pub proof fn occupied_slots_are_linked_once(m: Model, i: int, b: int, k: int, l: int)
    requires
        m.consistent(),
        0 <= i < m.chunks.len(),
        m.keyed(i),
        0 <= b < m.chains.len(),
        0 <= k < m.chains[b].len(),
        0 <= l < m.chains[b].len(),
        m.chains[b][k] == i,
        m.chains[b][l] == i,
    ensures
        b == m.home(i),
        k == l,
        m.chains[m.home(i)].contains(i),
{
    assert(m.chunks[i].keyed());
    assert(m.chains[b].contains(i));
    assert(m.chains[b].no_duplicates());
}

/// What a chain links is occupied, is of an asset, and belongs in that bucket.
pub proof fn chains_link_only_what_is_there(m: Model, b: int, k: int)
    requires
        m.consistent(),
        0 <= b < m.chains.len(),
        0 <= k < m.chains[b].len(),
    ensures
        0 <= m.chains[b][k] < m.chunks.len(),
        m.keyed(m.chains[b][k]),
        m.home(m.chains[b][k]) == b,
{
    assert(m.chains[b].contains(m.chains[b][k]));
}

/// A chunk that is placed under a key that nobody holds leaves the keys unique.
pub proof fn reserving_keeps_keys_unique(
    m: Model,
    n: Model,
    i: int,
    p: usize,
    asset: u32,
    index: u32,
    size: usize,
    ready: bool,
    protect: u32,
)
    requires
        m.consistent(),
        m.unique_keys(),
        m.resident(asset, index) is None,
        newly_reserved(m, n, i, p, asset, index, size, ready, protect),
    ensures
        n.unique_keys(),
{
    lemma_resident(m, asset, index);
    assert forall|a: int, b: int|
        0 <= a < n.chunks.len() && 0 <= b < n.chunks.len() && n.keyed(a) && n.chunks[b].holds(
            n.chunks[a].asset,
            n.chunks[a].index,
        ) implies a == b by {
        if a != i {
            assert(kept_or_evicted(m.chunks[a], n.chunks[a], protect));
            assert(m.chunks[a] == n.chunks[a]);
        }
        if b != i {
            assert(kept_or_evicted(m.chunks[b], n.chunks[b], protect));
            assert(m.chunks[b] == n.chunks[b]);
        }
        if a == i && b != i {
            assert(m.chunks[b].holds(asset, index));
        } else if a != i && b == i {
            assert(m.chunks[a].holds(asset, index));
        } else if a != i && b != i {
            assert(m.keyed(a));
        }
    }
}

// ---- eviction ----

/// Every occupied slot of `n` holds the key that it holds in `m`.
pub open spec fn keys_kept(m: Model, n: Model) -> bool {
    &&& n.chunks.len() == m.chunks.len()
    &&& forall|i: int|
        0 <= i < m.chunks.len() ==> {
            ||| (#[trigger] n.chunks[i]).backing == 0
            ||| {
                &&& m.chunks[i].backing != 0
                &&& n.chunks[i].asset == m.chunks[i].asset
                &&& n.chunks[i].index == m.chunks[i].index
            }
        }
}

proof fn lemma_keys_kept(m: Model, n: Model)
    requires
        m.unique_keys(),
        keys_kept(m, n),
    ensures
        n.unique_keys(),
{
    assert forall|a: int, b: int|
        0 <= a < n.chunks.len() && 0 <= b < n.chunks.len() && n.keyed(a) && n.chunks[b].holds(
            n.chunks[a].asset,
            n.chunks[a].index,
        ) implies a == b by {
        assert(m.keyed(a));
        assert(m.chunks[b].holds(m.chunks[a].asset, m.chunks[a].index));
    }
}

/// What was found somewhere was found in the table, and where keys stay they stay unique.
pub proof fn lemma_keys_stay(m: Model, n: Model)
    requires
        m.consistent(),
        m.unique_keys(),
        places_found(m) ==> keys_kept(m, n),
    ensures
        n.unique_keys(),
{
    assert forall|p: usize| (#[trigger] m.slot_at(p)) is Some implies 0 <= m.slot_at(p)->0
        < m.chunks.len() by {
        lemma_slot_at(m, p);
    }
    assert forall|asset: u32, index: u32|
        (#[trigger] m.resident(asset, index)) is Some implies 0 <= m.resident(asset, index)->0
        < m.chunks.len() by {
        lemma_resident(m, asset, index);
    }
    lemma_keys_kept(m, n);
}

/// Chunks are found in the table.
pub open spec fn places_found(m: Model) -> bool {
    &&& forall|p: usize|
        (#[trigger] m.slot_at(p)) is Some ==> 0 <= m.slot_at(p)->0 < m.chunks.len()
    &&& forall|asset: u32, index: u32|
        (#[trigger] m.resident(asset, index)) is Some ==> 0 <= m.resident(asset, index)->0
            < m.chunks.len()
}

/// No operation on a chunk, an address, a slot or the load queue makes a key resident
/// twice.
pub proof fn operations_keep_keys_unique(
    m: Model,
    p: usize,
    flag: bool,
    asset: u32,
    index: u32,
    slot: u32,
    number: u32,
)
    requires
        m.consistent(),
        m.unique_keys(),
    ensures
        m.add_lease(p).unique_keys(),
        m.release(p).unique_keys(),
        m.touch(p).unique_keys(),
        m.set_dirty(p, flag).unique_keys(),
        m.mark_ready(p).unique_keys(),
        m.evict_chunk(p).unique_keys(),
        m.try_acquire(asset, index).unique_keys(),
        m.retain(slot, number).unique_keys(),
        m.release_slot(slot, number).unique_keys(),
        m.enqueue(slot, number).unique_keys(),
        m.enqueue_owned(slot, number).unique_keys(),
        m.release_owned(slot).unique_keys(),
        m.dequeue(slot).unique_keys(),
        m.popped().unique_keys(),
{
    lemma_slot_at(m, p);
    lemma_resident(m, asset, index);
    lemma_keys_kept(m, m.add_lease(p));
    lemma_keys_kept(m, m.release(p));
    lemma_keys_kept(m, m.touch(p));
    lemma_keys_kept(m, m.set_dirty(p, flag));
    lemma_keys_kept(m, m.mark_ready(p));
    lemma_keys_kept(m, m.evict_chunk(p));
    lemma_keys_kept(m, m.try_acquire(asset, index));
    lemma_keys_kept(m, m.retain(slot, number));
    lemma_keys_kept(m, m.release_slot(slot, number));
    lemma_keys_kept(m, m.enqueue(slot, number));
    lemma_keys_kept(m, m.enqueue_owned(slot, number));
    lemma_keys_kept(m, m.release_owned(slot));
    lemma_keys_kept(m, m.dequeue(slot));
    lemma_keys_kept(m, m.popped());
}

/// Nor does an eviction.
pub proof fn evictions_keep_keys_unique(m: Model, n: Model)
    requires
        m.unique_keys(),
        only_evicted(m, n),
    ensures
        n.unique_keys(),
{
    assert forall|i: int| 0 <= i < m.chunks.len() implies kept_or_evicted(
        m.chunks[i],
        #[trigger] n.chunks[i],
        m.protect,
    ) by {}
    lemma_keys_kept(m, n);
}

/// Nor does a request; and a chunk that was requested is resident where the request says.
pub proof fn requested_chunks_are_found(
    m: Model,
    asset: u32,
    index: u32,
    size: usize,
    r: usize,
    n: Model,
)
    requires
        m.consistent(),
        n.consistent(),
        m.unique_keys(),
        request_outcome(m, asset, index, size, r, n),
    ensures
        n.unique_keys(),
        r != 0 ==> n.resident(asset, index) is Some && n.chunks[n.resident(asset, index)->0].backing
            == r,
{
    reveal(request_outcome);
    lemma_resident(m, asset, index);
    if m.requestable(asset) {
        match m.resident(asset, index) {
            Some(i) => {
                lemma_keys_kept(m, n);
                lemma_found(n, i, asset, index);
            },
            None => {
                lemma_reserved_or_evicted(m, asset, index, size, false, r, n);
            },
        }
    }
}

/// Nor does acquiring a chunk; and it is resident then where that says.
pub proof fn acquired_chunks_are_found(
    m: Model,
    asset: u32,
    index: u32,
    size: usize,
    r: usize,
    n: Model,
)
    requires
        m.consistent(),
        n.consistent(),
        m.unique_keys(),
        acquire_outcome(m, asset, index, size, r, n),
    ensures
        n.unique_keys(),
        r != 0 ==> n.resident(asset, index) is Some && n.chunks[n.resident(asset, index)->0].backing
            == r,
{
    reveal(acquire_outcome);
    lemma_resident(m, asset, index);
    if m.usable(asset) {
        match m.resident(asset, index) {
            Some(i) => {
                lemma_keys_kept(m, n);
                lemma_found(n, i, asset, index);
            },
            None => {
                lemma_reserved_or_evicted(m, asset, index, size, true, r, n);
            },
        }
    }
}

/// A lookup finds the one slot that holds a key.
pub proof fn lemma_found(n: Model, i: int, asset: u32, index: u32)
    requires
        n.consistent(),
        n.unique_keys(),
        asset != NONE,
        0 <= i < n.chunks.len(),
        n.chunks[i].holds(asset, index),
    ensures
        n.resident(asset, index) == Some(i),
{
    lemma_resident(n, asset, index);
    assert(n.resident(asset, index) is Some);
    let j = n.resident(asset, index)->0;
    assert(n.keyed(j));
}

/// A chunk that was not resident is put in its slot, or nothing but evictions happens.
proof fn lemma_reserved_or_evicted(
    m: Model,
    asset: u32,
    index: u32,
    size: usize,
    ready: bool,
    r: usize,
    n: Model,
)
    requires
        m.consistent(),
        n.consistent(),
        m.unique_keys(),
        m.usable(asset),
        m.resident(asset, index) is None,
        r != 0 ==> exists|i: int|
            #[trigger] newly_reserved(
                m,
                n,
                i,
                r,
                asset,
                index,
                size,
                ready,
                m.protection(asset),
            ),
        r == 0 ==> only_evicted(
            Model {
                tick: n.tick,
                alloc_gen: n.alloc_gen,
                ..m.protecting(m.protection(asset))
            },
            n.protecting(m.protection(asset)),
        ),
    ensures
        n.unique_keys(),
        r != 0 ==> n.resident(asset, index) is Some && n.chunks[n.resident(asset, index)->0].backing
            == r,
{
    let prot = m.protection(asset);
    if r == 0 {
        let a = Model { tick: n.tick, alloc_gen: n.alloc_gen, ..m.protecting(prot) };
        lemma_keys_kept(m, a);
        evictions_keep_keys_unique(a, n.protecting(prot));
        lemma_keys_kept(n.protecting(prot), n);
    } else {
        let i = choose|i: int|
            #[trigger] newly_reserved(m, n, i, r, asset, index, size, ready, prot);
        reserving_keeps_keys_unique(m, n, i, r, asset, index, size, ready, prot);
        lemma_found(n, i, asset, index);
    }
}

/// A chunk that is leased or unsaved is never evicted.
pub proof fn leased_and_unsaved_chunks_survive(m: Model, n: Model, i: int)
    requires
        only_evicted(m, n),
        0 <= i < m.chunks.len(),
        m.chunks[i].leases > 0 || m.chunks[i].dirty,
    ensures
        n.chunks[i] == m.chunks[i],
{
    assert(kept_or_evicted(m.chunks[i], n.chunks[i], m.protect));
}

/// While an asset is protected none of its chunks is evicted.
pub proof fn protected_chunks_survive(m: Model, n: Model, i: int)
    requires
        only_evicted(m, n),
        0 <= i < m.chunks.len(),
        m.protect != NONE,
        m.chunks[i].asset == m.protect,
    ensures
        n.chunks[i] == m.chunks[i],
{
    assert(kept_or_evicted(m.chunks[i], n.chunks[i], m.protect));
}

/// Of an asset that is evicted tail first, the chunk that is chosen has the highest index.
pub proof fn tail_first_assets_lose_their_tail(
    m: Model,
    ranks: Seq<Rank>,
    i: int,
    j: int,
)
    requires
        m.victim(ranks, None, Some(i)),
        m.keyed(i),
        m.assets[m.chunks[i].asset as int].evict_tail_first,
        0 <= j < m.chunks.len(),
        m.chunks[j].backing != 0,
        m.chunks[j].asset == m.chunks[i].asset,
    ensures
        m.chunks[j].index <= m.chunks[i].index,
{
    assert(m.candidate(i));
}

/// An evicted slot is empty: its leases, its place in the queue and its marks are gone, and
/// its record names the chunk that was there.
pub proof fn eviction_empties_the_slot(m: Model, i: int)
    requires
        0 <= i < m.chunks.len(),
    ensures
        m.evicted(i).chunks[i] == ChunkSlot::spec_empty(),
        m.evicted_record(i).backing == m.chunks[i].backing,
        m.evicted_record(i).asset == m.chunks[i].asset,
        forall|j: int|
            0 <= j < m.chunks.len() && j != i ==> #[trigger] m.evicted(i).chunks[j] == m.chunks[j],
{
}

// ---- leases and tokens ----

/// A lease that is taken and given back leaves as many leases as there were.
pub proof fn leases_balance(m: Model, p: usize, i: int)
    requires
        m.slot_at(p) == Some(i),
        m.chunks[i].leases < u32::MAX,
    ensures
        m.add_lease(p).chunks[i].leases == m.chunks[i].leases + 1,
        m.add_lease(p).release(p).chunks[i].leases == m.chunks[i].leases,
        forall|j: int|
            0 <= j < m.chunks.len() && j != i ==> #[trigger] m.add_lease(p).release(p).chunks[j]
                == m.chunks[j],
{
    lemma_slot_at(m, p);
    let n = m.add_lease(p);
    assert forall|j: int| 0 <= j < i implies !at_address(p)(#[trigger] n.chunks[j]) by {
        assert(m.chunks[j].backing != p);
    }
    lemma_first_pos_is(n.chunks, at_address(p), i);
}

/// A token holds a slot and a generation.
pub proof fn tokens_hold_slot_and_generation(slot: u32, gen: u32)
    ensures
        token_slot(token_of(slot, gen)) == slot,
        token_gen(token_of(slot, gen)) == gen,
        gen != 0 ==> token_of(slot, gen) != 0,
{
}

/// The token of a resident chunk is current: the slot still holds the chunk.
pub proof fn fresh_tokens_are_current(m: Model, p: usize, i: int)
    requires
        m.consistent(),
        m.slot_at(p) == Some(i),
        m.chunks[i].generation != 0,
    ensures
        pin_token_of(m, p) != 0,
        token_slot(pin_token_of(m, p)) == i,
        m.current(token_slot(pin_token_of(m, p)), token_gen(pin_token_of(m, p))),
{
    lemma_slot_at(m, p);
    tokens_hold_slot_and_generation(i as u32, m.chunks[i].generation);
}

/// A token whose slot holds another chunk by now, or none, changes no lease.
pub proof fn stale_tokens_change_nothing(m: Model, slot: u32, gen: u32)
    requires
        !m.current(slot, gen),
    ensures
        m.retain(slot, gen).chunks == m.chunks,
        m.release_slot(slot, gen) == m,
{
}

/// A chunk that takes a slot is stamped with a generation that tokens made before do not
/// have, so those are stale from then on.
pub proof fn reuse_makes_tokens_stale(
    m: Model,
    n: Model,
    i: int,
    p: usize,
    asset: u32,
    index: u32,
    size: usize,
    ready: bool,
    protect: u32,
    gen: u32,
)
    requires
        newly_reserved(m, n, i, p, asset, index, size, ready, protect),
        m.chunks.len() <= 0x8000_0000,
        gen <= m.alloc_gen,
        m.alloc_gen < u32::MAX,
    ensures
        n.chunks[i].generation == m.alloc_gen + 1,
        !n.current(i as u32, gen),
{
}

/// An independent pin that is taken and given back leaves as many leases as there were.
pub proof fn pins_balance(m: Model, slot: u32, gen: u32)
    requires
        m.current(slot, gen),
        m.chunks[slot as int].leases < u32::MAX,
    ensures
        m.retain(slot, gen).chunks[slot as int].leases == m.chunks[slot as int].leases + 1,
        m.retain(slot, gen).release_slot(slot, gen).chunks[slot as int].leases
            == m.chunks[slot as int].leases,
        forall|j: int|
            0 <= j < m.chunks.len() && j != slot ==> #[trigger] m.retain(slot, gen).release_slot(
                slot,
                gen,
            ).chunks[j] == m.chunks[j],
{
}

/// Looking a chunk up changes neither leases nor the order of eviction, nor anything but
/// the counters.
pub proof fn peeking_changes_nothing(m: Model, asset: u32, index: u32, p: usize)
    ensures
        m.searched(asset, index) == (Model { stats: m.searched(asset, index).stats, ..m }),
        m.searched_ptr(p) == (Model { stats: m.searched_ptr(p).stats, ..m }),
{
}

// ---- requests ----

/// A chunk that was requested is not acquired until it is marked ready, and then it is, at
/// the address that the request gave. The address must be one that no other slot backs.
pub proof fn requested_chunks_wait_for_their_data(
    m: Model,
    n: Model,
    i: int,
    p: usize,
    asset: u32,
    index: u32,
    size: usize,
    protect: u32,
)
    requires
        m.consistent(),
        n.consistent(),
        asset != NONE,
        m.resident(asset, index) is None,
        p != 0,
        newly_reserved(m, n, i, p, asset, index, size, false, protect),
        forall|j: int| 0 <= j < m.chunks.len() ==> (#[trigger] m.chunks[j]).backing != p,
    ensures
        n.peek_result(asset, index) == p,
        n.try_acquire_result(asset, index) == 0,
        n.mark_ready(p).try_acquire_result(asset, index) == p,
        n.mark_ready(p).try_acquire(asset, index).chunks[i].leases == 2,
{
    lemma_resident(m, asset, index);
    lemma_resident(n, asset, index);
    assert forall|j: int| 0 <= j < n.chunks.len() && j != i implies !(
    #[trigger] n.chunks[j]).holds(asset, index) && n.chunks[j].backing != p by {
        assert(kept_or_evicted(m.chunks[j], n.chunks[j], protect));
    }
    assert(n.chunks[i].holds(asset, index));
    let r = n.mark_ready(p);
    assert forall|j: int| 0 <= j < i implies !at_address(p)(#[trigger] n.chunks[j]) by {}
    lemma_first_pos_is(n.chunks, at_address(p), i);
    let b = n.bucket(asset, index);
    lemma_key_bucket(asset, index, n.chains.len());
    let c = n.chains[b];
    let q = numbered_with_key(n.chunks, asset, index);
    let q2 = numbered_with_key(r.chunks, asset, index);
    lemma_first_pos(c, q);
    let k = first_pos(c, q) as int;
    assert(n.chunks[i].keyed());
    assert(c.contains(i));
    let l = choose|l: int| 0 <= l < c.len() && c[l] == i;
    assert(q(c[l]));
    assert(c[k] == i);
    assert forall|j: int| 0 <= j < k implies !q2(#[trigger] c[j]) by {
        assert(!q(c[j]));
        assert(0 <= n.chains[b][j] < n.chunks.len());
    }
    lemma_first_pos_is(c, q2, k);
}

// ---- the load queue ----

/// There is something to load exactly if the loader is given a chunk.
pub proof fn queue_serves_exactly_if_it_has_any(m: Model)
    ensures
        m.has_any() <==> m.next_up() is Some,
        m.has_lowest() ==> m.has_any(),
{
    if m.has_any() {
        let s = choose|s: int| 0 <= s < m.chunks.len() && (#[trigger] m.chunks[s]).servable();
        let w = lemma_next_exists(m, m.chunks.len() as int, s);
        assert(m.first_urgent(w));
    }
    if m.next_up() is Some {
        let w = choose|w: int| m.first_urgent(w);
        assert(m.chunks[w].servable());
    }
}

/// Slot `w` is the first of the servable slots below `n`.
spec fn first_below(m: Model, n: int, w: int) -> bool {
    &&& 0 <= w < n
    &&& m.chunks[w].servable()
    &&& forall|j: int|
        0 <= j < n && (#[trigger] m.chunks[j]).servable() ==> {
            &&& m.chunks[w].queue_priority <= m.chunks[j].queue_priority
            &&& j < w ==> m.chunks[w].queue_priority < m.chunks[j].queue_priority
        }
}

/// If some slot below `n` is servable, one is first.
proof fn lemma_next_exists(m: Model, n: int, s: int) -> (w: int)
    requires
        0 <= s < n <= m.chunks.len(),
        m.chunks[s].servable(),
    ensures
        first_below(m, n, w),
    decreases n,
{
    let l = n - 1;
    if exists|i: int| 0 <= i < l && (#[trigger] m.chunks[i]).servable() {
        let i = choose|i: int| 0 <= i < l && (#[trigger] m.chunks[i]).servable();
        let v = lemma_next_exists(m, l, i);
        if m.chunks[l].servable() && m.chunks[l].queue_priority < m.chunks[v].queue_priority {
            l
        } else {
            v
        }
    } else {
        assert(s == l);
        l
    }
}

/// What the loader is given is leased, was queued, and is as urgent as anything else there.
/// It is off the queue then, and no lease has changed.
pub proof fn the_most_urgent_chunk_is_served(m: Model, i: int, j: int)
    requires
        m.next_up() == Some(i),
        0 <= j < m.chunks.len(),
    ensures
        0 <= i < m.chunks.len(),
        m.chunks[i].servable(),
        m.chunks[j].servable() ==> m.chunks[i].queue_priority <= m.chunks[j].queue_priority,
        !m.popped().chunks[i].queued,
        m.popped().chunks[j].leases == m.chunks[j].leases,
        m.popped().chunks[j].backing == m.chunks[j].backing,
        j != i && m.chunks[j].servable() ==> m.popped().chunks[j] == m.chunks[j],
{
    let w = choose|w: int| m.first_urgent(w);
    assert(m.first_urgent(w));
}

/// A chunk that is queued with the queue's own lease has one lease more, however often it
/// is queued; giving that lease back, or taking the chunk off the queue, leaves as many
/// leases as there were. The leases of others are counted without it.
pub proof fn queue_leases_balance(m: Model, slot: u32, priority: u32, again: u32)
    requires
        m.live(slot),
        !m.chunks[slot as int].queue_leased,
        m.chunks[slot as int].leases < u32::MAX,
    ensures
        ({
            let c = m.chunks[slot as int];
            let q = m.enqueue_owned(slot, priority);
            &&& q.chunks[slot as int].leases == c.leases + 1
            &&& q.enqueue_owned(slot, again).chunks[slot as int].leases == c.leases + 1
            &&& q.enqueue_owned(slot, again).chunks[slot as int].queue_priority == again
            &&& q.release_owned(slot).chunks[slot as int].leases == c.leases
            &&& q.release_owned(slot).release_owned(slot) == q.release_owned(slot)
            &&& q.release_owned(slot).chunks[slot as int].queued
            &&& q.dequeue(slot).chunks[slot as int].leases == c.leases
            &&& !q.dequeue(slot).chunks[slot as int].queued
            &&& q.chunks[slot as int].queue_released().leases == c.leases
        }),
{
    let q = m.enqueue_owned(slot, priority);
    assert(q.release_owned(slot).release_owned(slot) =~= q.release_owned(slot));
}

/// A chunk with the queue's own lease is served even when its requester has none.
pub proof fn owned_entries_are_served(m: Model, slot: u32, priority: u32)
    requires
        m.live(slot),
        !m.chunks[slot as int].queue_leased,
        m.chunks[slot as int].leases < u32::MAX,
    ensures
        m.enqueue_owned(slot, priority).has_any(),
{
    assert(m.enqueue_owned(slot, priority).chunks[slot as int].servable());
}

// ---- the clock ----

/// No chunk was used later than now.
pub open spec fn clocked(m: Model) -> bool {
    forall|i: int| 0 <= i < m.chunks.len() ==> (#[trigger] m.chunks[i]).recency <= m.tick
}

/// A chunk that is touched was used later than every other.
pub proof fn touching_makes_most_recent(m: Model, p: usize, i: int, j: int)
    requires
        clocked(m),
        m.tick < u64::MAX,
        m.slot_at(p) == Some(i),
        0 <= j < m.chunks.len(),
        j != i,
    ensures
        clocked(m.touch(p)),
        m.touch(p).chunks[i].recency > m.touch(p).chunks[j].recency,
{
    lemma_slot_at(m, p);
    let n = m.touch(p);
    assert forall|k: int| 0 <= k < n.chunks.len() implies (#[trigger] n.chunks[k]).recency
        <= n.tick by {
        assert(m.chunks[k].recency <= m.tick);
    }
    assert(m.chunks[j].recency <= m.tick);
}

/// Leases, reservations and evictions keep the clock ahead.
pub proof fn the_clock_stays_ahead(
    m: Model,
    p: usize,
    i: int,
    slot: u32,
    gen: u32,
    asset: u32,
    index: u32,
    size: usize,
)
    requires
        clocked(m),
        m.consistent(),
        m.tick < u64::MAX,
        0 <= i < m.chunks.len(),
    ensures
        clocked(m.add_lease(p)),
        clocked(m.retain(slot, gen)),
        clocked(m.try_acquire(asset, index)),
        clocked(m.taken(i, p, asset, index, size, false)),
        clocked(m.evicted(i)),
{
    lemma_slot_at(m, p);
    lemma_resident(m, asset, index);
    let a = m.add_lease(p);
    assert forall|k: int| 0 <= k < a.chunks.len() implies (#[trigger] a.chunks[k]).recency
        <= a.tick by {
        assert(m.chunks[k].recency <= m.tick);
    }
    let b = m.retain(slot, gen);
    assert forall|k: int| 0 <= k < b.chunks.len() implies (#[trigger] b.chunks[k]).recency
        <= b.tick by {
        assert(m.chunks[k].recency <= m.tick);
    }
    let c = m.try_acquire(asset, index);
    assert forall|k: int| 0 <= k < c.chunks.len() implies (#[trigger] c.chunks[k]).recency
        <= c.tick by {
        assert(m.chunks[k].recency <= m.tick);
    }
    let d = m.taken(i, p, asset, index, size, false);
    assert forall|k: int| 0 <= k < d.chunks.len() implies (#[trigger] d.chunks[k]).recency
        <= d.tick by {
        assert(m.chunks[k].recency <= m.tick);
    }
    let e = m.evicted(i);
    assert forall|k: int| 0 <= k < e.chunks.len() implies (#[trigger] e.chunks[k]).recency
        <= e.tick by {
        assert(m.chunks[k].recency <= m.tick);
    }
}

} // verus!
