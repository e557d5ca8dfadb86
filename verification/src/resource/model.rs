//! What the manager's tables hold, as mathematics, and the steps on them.
use crate::resource::index::{chains_ok, key_bucket, lemma_key_bucket, unlinked, NONE};
use crate::resource::types::{
    rank_before, AssetSlot, ChunkSlot, Evicted, Notice, Rank, RankInput, Source, Stats,
    BACKING_SLAB,
};
use vstd::prelude::*;

verus! {

/// The position of the first item of `s` that satisfies `p`, or the length.
pub open spec fn first_pos<A>(s: Seq<A>, p: spec_fn(A) -> bool) -> nat
    decreases s.len(),
{
    if s.len() == 0 || p(s[0]) {
        0
    } else {
        1 + first_pos(s.skip(1), p)
    }
}

/// How many items a search for `p` visits.
pub open spec fn visits<A>(s: Seq<A>, p: spec_fn(A) -> bool) -> nat {
    if first_pos(s, p) < s.len() {
        first_pos(s, p) + 1
    } else {
        s.len()
    }
}

/// What `first_pos` is.
pub proof fn lemma_first_pos<A>(s: Seq<A>, p: spec_fn(A) -> bool)
    ensures
        first_pos(s, p) <= s.len(),
        forall|j: int| 0 <= j < first_pos(s, p) ==> !p(#[trigger] s[j]),
        first_pos(s, p) < s.len() ==> p(s[first_pos(s, p) as int]),
    decreases s.len(),
{
    if s.len() == 0 || p(s[0]) {
    } else {
        let t = s.skip(1);
        lemma_first_pos(t, p);
        assert forall|j: int| 0 <= j < first_pos(s, p) implies !p(#[trigger] s[j]) by {
            if j > 0 {
                assert(s[j] == t[j - 1]);
            }
        }
    }
}

/// The one position that has what `lemma_first_pos` says.
pub proof fn lemma_first_pos_is<A>(s: Seq<A>, p: spec_fn(A) -> bool, k: int)
    requires
        0 <= k <= s.len(),
        forall|j: int| 0 <= j < k ==> !p(#[trigger] s[j]),
        k < s.len() ==> p(s[k]),
    ensures
        first_pos(s, p) == k,
{
    lemma_first_pos(s, p);
    let f = first_pos(s, p) as int;
    if f < k {
        assert(!p(s[f]));
    } else if k < f {
        assert(!p(s[k]));
    }
}

/// Slots that back the address `p`.
pub open spec fn at_address(p: usize) -> spec_fn(ChunkSlot) -> bool {
    |c: ChunkSlot| c.backing == p
}

/// Slots that hold `(asset, index)`.
pub open spec fn with_key(asset: u32, index: u32) -> spec_fn(ChunkSlot) -> bool {
    |c: ChunkSlot| c.holds(asset, index)
}

/// Slot numbers whose slot holds `(asset, index)`.
pub open spec fn numbered_with_key(chunks: Seq<ChunkSlot>, asset: u32, index: u32) -> spec_fn(
    int,
) -> bool {
    |i: int| chunks[i].holds(asset, index)
}

/// Assets that are not in use.
pub open spec fn unused_asset() -> spec_fn(AssetSlot) -> bool {
    |a: AssetSlot| !a.in_use
}

/// The hash chains and the chunk table describe the same set: every slot in a chain
/// is occupied by a keyed chunk of that bucket, every occupied keyed slot is in its
/// bucket's chain, and none is linked twice.
pub open spec fn agree(chunks: Seq<ChunkSlot>, chains: Seq<Seq<int>>) -> bool {
    &&& 0 < chains.len() <= 0x8000_0000
    &&& chunks.len() <= 0x8000_0000
    &&& chains_ok(chains, chunks.len())
    &&& forall|b: int, i: int|
        0 <= b < chains.len() && #[trigger] chains[b].contains(i) ==> chunks[i].keyed()
            && key_bucket(chunks[i].asset, chunks[i].index, chains.len()) == b
    &&& forall|i: int|
        0 <= i < chunks.len() && (#[trigger] chunks[i]).keyed() ==> {
            let b = key_bucket(chunks[i].asset, chunks[i].index, chains.len());
            0 <= b < chains.len() && chains[b].contains(i)
        }
}

/// Occupied slots belong to one of `assets` assets, or are adopted.
pub open spec fn owned(chunks: Seq<ChunkSlot>, assets: nat) -> bool {
    forall|i: int|
        0 <= i < chunks.len() && (#[trigger] chunks[i]).backing != 0 ==> (chunks[i].asset == NONE
            || chunks[i].asset < assets)
}

/// A free slot keeps nothing: no lease, mark or queue entry outlives its chunk.
pub open spec fn tidy(chunks: Seq<ChunkSlot>) -> bool {
    forall|i: int|
        0 <= i < chunks.len() && (#[trigger] chunks[i]).backing == 0 ==> chunks[i]
            == ChunkSlot::spec_empty()
}

/// No resident chunk of `asset` has a greater index.
pub open spec fn highest_in(chunks: Seq<ChunkSlot>, asset: u32, index: u32) -> bool {
    forall|j: int|
        0 <= j < chunks.len() && (#[trigger] chunks[j]).backing != 0 && chunks[j].asset == asset
            ==> chunks[j].index <= index
}

/// Slot `i` may be chosen for eviction: its chunk is unleased and saved, its asset is
/// not protected, and if the asset is evicted tail first, it is the asset's last
/// resident chunk.
pub open spec fn candidate_in(
    assets: Seq<AssetSlot>,
    chunks: Seq<ChunkSlot>,
    protect: u32,
    i: int,
) -> bool {
    let c = chunks[i];
    &&& c.evictable()
    &&& protect != NONE ==> c.asset != protect
    &&& c.asset != NONE ==> {
        &&& c.asset < assets.len()
        &&& assets[c.asset as int].evict_tail_first ==> highest_in(chunks, c.asset, c.index)
    }
}

/// The contents of a manager.
#[verifier::ext_equal]
pub struct Model {
    pub slab: usize,
    pub assets: Seq<AssetSlot>,
    pub chunks: Seq<ChunkSlot>,
    /// The slots of each hash bucket, in lookup order.
    pub chains: Seq<Seq<int>>,
    pub tick: u64,
    /// The asset whose chunks are not evicted, or `NONE`.
    pub protect: u32,
    pub stats: Stats,
    pub alloc_gen: u32,
}

impl Model {
    /// The bucket of a key.
    pub open spec fn bucket(self, asset: u32, index: u32) -> int {
        key_bucket(asset, index, self.chains.len())
    }

    /// The hash chains and the chunk table agree, chunks belong to a slot of the asset
    /// table, and free slots are empty.
    pub open spec fn consistent(self) -> bool {
        &&& self.assets.len() <= NONE
        &&& agree(self.chunks, self.chains)
        &&& owned(self.chunks, self.assets.len())
        &&& tidy(self.chunks)
    }

    /// Slot `i` holds a chunk of an asset.
    pub open spec fn keyed(self, i: int) -> bool {
        self.chunks[i].keyed()
    }

    /// The bucket that slot `i`'s key belongs to.
    pub open spec fn home(self, i: int) -> int {
        self.bucket(self.chunks[i].asset, self.chunks[i].index)
    }

    /// No two slots hold the same key.
    pub open spec fn unique_keys(self) -> bool {
        forall|i: int, j: int|
            0 <= i < self.chunks.len() && 0 <= j < self.chunks.len() && self.keyed(i)
                && self.chunks[j].holds(self.chunks[i].asset, self.chunks[i].index) ==> i == j
    }

    // ---- lookups ----

    /// The slot that holds `(asset, index)`: the first in lookup order.
    pub open spec fn resident(self, asset: u32, index: u32) -> Option<int> {
        if asset == NONE {
            let k = first_pos(self.chunks, with_key(asset, index));
            if k < self.chunks.len() {
                Some(k as int)
            } else {
                None
            }
        } else {
            let c = self.chains[self.bucket(asset, index)];
            let k = first_pos(c, numbered_with_key(self.chunks, asset, index));
            if k < c.len() {
                Some(c[k as int])
            } else {
                None
            }
        }
    }

    /// How many slots that lookup visits.
    pub open spec fn resident_visits(self, asset: u32, index: u32) -> nat {
        if asset == NONE {
            visits(self.chunks, with_key(asset, index))
        } else {
            visits(
                self.chains[self.bucket(asset, index)],
                numbered_with_key(self.chunks, asset, index),
            )
        }
    }

    /// The slot of the resident chunk at address `p`: the first that backs it.
    pub open spec fn slot_at(self, p: usize) -> Option<int> {
        let k = first_pos(self.chunks, at_address(p));
        if p != 0 && k < self.chunks.len() {
            Some(k as int)
        } else {
            None
        }
    }

    /// The first free slot.
    pub open spec fn free_slot(self) -> Option<int> {
        let k = first_pos(self.chunks, at_address(0));
        if k < self.chunks.len() {
            Some(k as int)
        } else {
            None
        }
    }

    /// After a lookup by key.
    pub open spec fn searched(self, asset: u32, index: u32) -> Model {
        Model { stats: self.stats.scanned_resident(self.resident_visits(asset, index)), ..self }
    }

    /// After a lookup by address.
    pub open spec fn searched_ptr(self, p: usize) -> Model {
        Model {
            stats: self.stats.scanned_ptr(
                if p == 0 {
                    0
                } else {
                    visits(self.chunks, at_address(p))
                },
            ),
            ..self
        }
    }

    /// After a search for a free slot.
    pub open spec fn searched_free(self) -> Model {
        Model { stats: self.stats.scanned_free(visits(self.chunks, at_address(0))), ..self }
    }

    /// The same with `p` protected.
    pub open spec fn protecting(self, p: u32) -> Model {
        Model { protect: p, ..self }
    }

    // ---- steps ----

    /// The clock moved on by one.
    pub open spec fn ticked(self) -> Model {
        Model { tick: self.tick.wrapping_add(1), ..self }
    }

    /// Slot `i` changed to `c`, which has the same address and key.
    pub open spec fn with_chunk(self, i: int, c: ChunkSlot) -> Model {
        Model { chunks: self.chunks.update(i, c), ..self }
    }

    /// The asset slot `a` changed.
    pub open spec fn with_asset(self, a: u32, s: AssetSlot) -> Model {
        Model { assets: self.assets.update(a as int, s), ..self }
    }

    /// The free slot `i` taken by chunk `c`, and linked where its key belongs.
    pub open spec fn placed(self, i: int, c: ChunkSlot) -> Model {
        let b = self.bucket(c.asset, c.index);
        Model {
            chunks: self.chunks.update(i, c),
            chains: if c.asset == NONE {
                self.chains
            } else {
                self.chains.update(b, seq![i] + self.chains[b])
            },
            ..self
        }
    }

    /// The occupied slot `i` freed, and unlinked.
    pub open spec fn cleared(self, i: int) -> Model {
        let b = self.home(i);
        Model {
            chunks: self.chunks.update(i, ChunkSlot::spec_empty()),
            chains: if self.chunks[i].asset == NONE {
                self.chains
            } else {
                self.chains.update(b, unlinked(self.chains[b], i))
            },
            ..self
        }
    }

    /// Slot `slot` is in the table and occupied.
    pub open spec fn live(self, slot: u32) -> bool {
        slot < self.chunks.len() && self.chunks[slot as int].backing != 0
    }

    /// Slot `slot` is live and still holds the chunk that was stamped `gen`.
    pub open spec fn current(self, slot: u32, gen: u32) -> bool {
        self.live(slot) && self.chunks[slot as int].generation == gen
    }

    // ---- operations by address: nothing but counters changes if `p` is not resident ----

    /// One more lease on the chunk at `p`.
    pub open spec fn add_lease(self, p: usize) -> Model {
        let m = self.ticked().searched_ptr(p);
        match self.slot_at(p) {
            Some(i) => m.with_chunk(i, self.chunks[i].leased(m.tick)),
            None => m,
        }
    }

    /// One lease fewer on the chunk at `p`.
    pub open spec fn release(self, p: usize) -> Model {
        let m = self.searched_ptr(p);
        match self.slot_at(p) {
            Some(i) => m.with_chunk(i, self.chunks[i].released()),
            None => m,
        }
    }

    /// The chunk at `p` is the most recently used.
    pub open spec fn touch(self, p: usize) -> Model {
        let m = self.ticked().searched_ptr(p);
        match self.slot_at(p) {
            Some(i) => m.with_chunk(i, ChunkSlot { recency: m.tick, ..self.chunks[i] }),
            None => m,
        }
    }

    /// The chunk at `p` is unsaved, or saved.
    pub open spec fn set_dirty(self, p: usize, dirty: bool) -> Model {
        let m = self.searched_ptr(p);
        match self.slot_at(p) {
            Some(i) => m.with_chunk(i, ChunkSlot { dirty, ..self.chunks[i] }),
            None => m,
        }
    }

    /// The chunk at `p` has its data.
    pub open spec fn mark_ready(self, p: usize) -> Model {
        let m = self.searched_ptr(p);
        match self.slot_at(p) {
            Some(i) => m.with_chunk(i, ChunkSlot { ready: true, ..self.chunks[i] }),
            None => m,
        }
    }

    /// The chunk at `p` dropped by its owner.
    pub open spec fn evict_chunk(self, p: usize) -> Model {
        let m = self.searched_ptr(p);
        match self.slot_at(p) {
            Some(i) => m.cleared(i),
            None => m,
        }
    }

    // ---- operations by key ----

    /// The chunk of `(asset, index)` leased if it is resident and ready.
    pub open spec fn try_acquire(self, asset: u32, index: u32) -> Model {
        let m = self.searched(asset, index);
        match self.resident(asset, index) {
            Some(i) => {
                let t = m.ticked();
                if self.chunks[i].ready {
                    t.with_chunk(i, self.chunks[i].leased(t.tick))
                } else {
                    t
                }
            },
            None => m,
        }
    }

    /// The address that `try_acquire` gives.
    pub open spec fn try_acquire_result(self, asset: u32, index: u32) -> usize {
        match self.resident(asset, index) {
            Some(i) => if self.chunks[i].ready {
                self.chunks[i].backing
            } else {
                0
            },
            None => 0,
        }
    }

    /// The address of the resident chunk of `(asset, index)`, or 0.
    pub open spec fn peek_result(self, asset: u32, index: u32) -> usize {
        match self.resident(asset, index) {
            Some(i) => self.chunks[i].backing,
            None => 0,
        }
    }

    // ---- operations by slot number ----

    /// One more lease on slot `slot`, if it still holds the chunk stamped `gen`.
    pub open spec fn retain(self, slot: u32, gen: u32) -> Model {
        if slot >= self.chunks.len() {
            self
        } else {
            let m = self.ticked();
            if self.current(slot, gen) {
                m.with_chunk(slot as int, self.chunks[slot as int].leased(m.tick))
            } else {
                m
            }
        }
    }

    /// One lease fewer on slot `slot`, if it still holds the chunk stamped `gen`.
    pub open spec fn release_slot(self, slot: u32, gen: u32) -> Model {
        if self.current(slot, gen) {
            self.with_chunk(slot as int, self.chunks[slot as int].released())
        } else {
            self
        }
    }

    /// Slot `slot` waiting to be loaded at `priority`.
    pub open spec fn enqueue(self, slot: u32, priority: u32) -> Model {
        if self.live(slot) {
            self.with_chunk(
                slot as int,
                ChunkSlot {
                    queued: true,
                    queue_priority: priority,
                    ..self.chunks[slot as int]
                },
            )
        } else {
            self
        }
    }

    /// The same, with a lease that the queue itself holds.
    pub open spec fn enqueue_owned(self, slot: u32, priority: u32) -> Model {
        if self.live(slot) {
            let c = self.chunks[slot as int];
            self.with_chunk(
                slot as int,
                ChunkSlot {
                    leases: if c.queue_leased {
                        c.leases
                    } else {
                        c.leases.wrapping_add(1)
                    },
                    queue_leased: true,
                    queued: true,
                    queue_priority: priority,
                    ..c
                },
            )
        } else {
            self
        }
    }

    /// The queue's own lease on slot `slot` given back.
    pub open spec fn release_owned(self, slot: u32) -> Model {
        if self.live(slot) && self.chunks[slot as int].queue_leased {
            self.with_chunk(slot as int, self.chunks[slot as int].queue_released())
        } else {
            self
        }
    }

    /// Slot `slot` out of the queue, with the queue's own lease.
    pub open spec fn dequeue(self, slot: u32) -> Model {
        if slot < self.chunks.len() {
            self.with_chunk(
                slot as int,
                ChunkSlot { queued: false, ..self.chunks[slot as int].queue_released() },
            )
        } else {
            self
        }
    }

    /// Slot `i` is what the loader fills next: of the servable chunks the most
    /// urgent, and of equally urgent ones the lowest slot.
    pub open spec fn first_urgent(self, i: int) -> bool {
        &&& 0 <= i < self.chunks.len()
        &&& self.chunks[i].servable()
        &&& forall|j: int|
            0 <= j < self.chunks.len() && (#[trigger] self.chunks[j]).servable() ==> {
                &&& self.chunks[i].queue_priority <= self.chunks[j].queue_priority
                &&& j < i ==> self.chunks[i].queue_priority < self.chunks[j].queue_priority
            }
    }

    /// The slot that the loader fills next.
    pub open spec fn next_up(self) -> Option<int> {
        if exists|i: int| self.first_urgent(i) {
            Some(choose|i: int| self.first_urgent(i))
        } else {
            None
        }
    }

    /// Some chunk can be served to the loader.
    pub open spec fn has_any(self) -> bool {
        exists|i: int| 0 <= i < self.chunks.len() && (#[trigger] self.chunks[i]).servable()
    }

    /// Some chunk can be served at the lowest urgency.
    pub open spec fn has_lowest(self) -> bool {
        exists|i: int|
            0 <= i < self.chunks.len() && (#[trigger] self.chunks[i]).servable()
                && self.chunks[i].queue_priority == u32::MAX
    }

    /// The next chunk taken off the queue, and every occupied slot that is queued
    /// without a lease dropped from it.
    pub open spec fn popped(self) -> Model {
        Model {
            chunks: Seq::new(
                self.chunks.len(),
                |i: int|
                    {
                        let c = self.chunks[i];
                        if c.backing != 0 && (c.leases == 0 || self.next_up() == Some(i)) {
                            ChunkSlot { queued: false, ..c }
                        } else {
                            c
                        }
                    },
            ),
            ..self
        }
    }

    // ---- assets ----

    /// `asset` is defined.
    pub open spec fn usable(self, asset: u32) -> bool {
        asset < self.assets.len() && self.assets[asset as int].in_use
    }

    /// Chunks of `asset` can be reserved without loading them.
    pub open spec fn requestable(self, asset: u32) -> bool {
        self.usable(asset) && self.assets[asset as int].source.construct is Some
    }

    /// The first asset slot not in use.
    pub open spec fn free_asset(self) -> Option<int> {
        let k = first_pos(self.assets, unused_asset());
        if k < self.assets.len() {
            Some(k as int)
        } else {
            None
        }
    }

    /// Slot `i` given to `owner`, whose chunks are rebuilt by `source`.
    pub open spec fn defined(self, i: int, owner: usize, source: Source) -> Model {
        self.with_asset(
            i as u32,
            AssetSlot { in_use: true, owner, source, soft_refs: 0, ..self.assets[i] },
        )
    }

    /// With `delta` more soft references to `asset`, but none if that takes away more than
    /// there are.
    pub open spec fn referenced(self, asset: u32, delta: i32) -> Model {
        if asset < self.assets.len() {
            let a = self.assets[asset as int];
            self.with_asset(
                asset,
                AssetSlot {
                    soft_refs: if delta > 0 {
                        a.soft_refs.wrapping_add(delta as u32)
                    } else if a.soft_refs + delta > 0 {
                        (a.soft_refs + delta) as u32
                    } else {
                        0
                    },
                    ..a
                },
            )
        } else {
            self
        }
    }

    /// With `construct` as the callback that prepares requested chunks of `asset`.
    pub open spec fn constructing(self, asset: u32, construct: Option<usize>) -> Model {
        if asset < self.assets.len() {
            let a = self.assets[asset as int];
            self.with_asset(asset, AssetSlot { source: Source { construct, ..a.source }, ..a })
        } else {
            self
        }
    }

    /// With `on` for whether only the last resident chunk of `asset` may be evicted.
    pub open spec fn tail_first(self, asset: u32, on: bool) -> Model {
        if asset < self.assets.len() {
            self.with_asset(
                asset,
                AssetSlot { evict_tail_first: on, ..self.assets[asset as int] },
            )
        } else {
            self
        }
    }

    /// With `on` for whether the chunks of `asset` are safe while the asset allocates.
    pub open spec fn self_protecting(self, asset: u32, on: bool) -> Model {
        if asset < self.assets.len() {
            self.with_asset(asset, AssetSlot { self_protect: on, ..self.assets[asset as int] })
        } else {
            self
        }
    }

    /// What is protected while `asset` allocates: the asset itself if it asked for
    /// that.
    pub open spec fn protection(self, asset: u32) -> u32 {
        if self.assets[asset as int].self_protect {
            asset
        } else {
            NONE
        }
    }

    // ---- reserving ----

    /// The chunk of `(asset, index)` in slot `i` leased once more.
    pub open spec fn hit(self, i: int) -> Model {
        let t = self.ticked();
        t.with_chunk(i, self.chunks[i].leased(t.tick))
    }

    /// The free slot `i` taken by a chunk with memory `p` under its first lease.
    pub open spec fn taken(
        self,
        i: int,
        p: usize,
        asset: u32,
        index: u32,
        size: usize,
        ready: bool,
    ) -> Model {
        let t = Model { alloc_gen: self.alloc_gen.wrapping_add(1), ..self.ticked() };
        t.placed(
            i,
            ChunkSlot {
                backing: p,
                asset,
                index,
                leases: 1,
                ready,
                recency: t.tick,
                size: size as u32,
                generation: t.alloc_gen,
                ..ChunkSlot::spec_empty()
            },
        )
    }

    /// The free slot `i` taken by the adopted block `p`, without a lease.
    pub open spec fn adopted(
        self,
        i: int,
        p: usize,
        size: usize,
        cost: u32,
        ctx: usize,
        on_evict: Option<usize>,
    ) -> Model {
        let t = Model {
            alloc_gen: self.alloc_gen.wrapping_add(1),
            stats: Stats { adopts: self.stats.adopts.wrapping_add(1), ..self.stats },
            ..self.ticked()
        };
        t.placed(
            i,
            ChunkSlot {
                backing: p,
                ready: true,
                recency: t.tick,
                size: size as u32,
                generation: t.alloc_gen,
                cost,
                adopt_evict: on_evict,
                adopt_ctx: ctx,
                ..ChunkSlot::spec_empty()
            },
        )
    }

    // ---- retiring an asset ----

    /// Slot `i` holds a chunk of `asset`.
    pub open spec fn of_asset(self, i: int, asset: u32) -> bool {
        self.chunks[i].backing != 0 && self.chunks[i].asset == asset
    }

    /// The chunk that retiring `asset` drops next: from slot `from` on the first, or
    /// if the asset is evicted tail first the one of the highest index (of equal
    /// indices the last).
    pub open spec fn next_retired(self, asset: u32, tail_first: bool, from: int, i: int) -> bool {
        &&& 0 <= i < self.chunks.len()
        &&& self.of_asset(i, asset)
        &&& if tail_first {
            forall|j: int|
                0 <= j < self.chunks.len() && #[trigger] self.of_asset(j, asset) ==> {
                    &&& self.chunks[j].index <= self.chunks[i].index
                    &&& self.chunks[j].index == self.chunks[i].index ==> j <= i
                }
        } else {
            from <= i && forall|j: int| from <= j < i ==> !#[trigger] self.of_asset(j, asset)
        }
    }

    // ---- eviction ----

    /// No resident chunk of `asset` has a greater index.
    pub open spec fn highest(self, asset: u32, index: u32) -> bool {
        highest_in(self.chunks, asset, index)
    }

    /// Slot `i` may be chosen for eviction.
    pub open spec fn candidate(self, i: int) -> bool {
        candidate_in(self.assets, self.chunks, self.protect, i)
    }

    /// What the rank of slot `i` is computed from: cost and soft references are the
    /// asset's, or the chunk's own if it is adopted.
    pub open spec fn rank_input(self, i: int) -> RankInput {
        let c = self.chunks[i];
        RankInput {
            soft_refs: if c.asset == NONE {
                0
            } else {
                self.assets[c.asset as int].soft_refs
            },
            cost: self.cost_of(i),
            size: c.size,
            recency: c.recency,
        }
    }

    /// What rebuilding the chunk in slot `i` costs.
    pub open spec fn cost_of(self, i: int) -> u32 {
        if self.chunks[i].asset == NONE {
            self.chunks[i].cost
        } else {
            self.assets[self.chunks[i].asset as int].source.cost
        }
    }

    /// The choice among the candidates other than `skip`: the lowest rank, and of
    /// equal ranks the lowest slot.
    pub open spec fn victim(self, ranks: Seq<Rank>, skip: Option<int>, r: Option<int>) -> bool {
        match r {
            Some(i) => {
                &&& 0 <= i < self.chunks.len()
                &&& self.candidate(i)
                &&& skip != Some(i)
                &&& forall|j: int|
                    0 <= j < self.chunks.len() && #[trigger] self.candidate(j) && skip != Some(j)
                        ==> !rank_before(ranks[j], ranks[i]) && (j < i ==> rank_before(
                        ranks[i],
                        ranks[j],
                    ))
            },
            None => forall|j: int|
                0 <= j < self.chunks.len() && #[trigger] self.candidate(j) ==> skip == Some(j),
        }
    }

    /// Who is told of the eviction of slot `i`.
    pub open spec fn notice(self, i: int) -> Notice {
        let c = self.chunks[i];
        if c.asset == NONE {
            match c.adopt_evict {
                Some(callback) => Notice::Adopter {
                    callback,
                    ctx: c.adopt_ctx,
                    backing: c.backing,
                },
                None => Notice::Silent,
            }
        } else {
            asset_notice(self.assets[c.asset as int], c.index)
        }
    }

    /// What the eviction of slot `i` leaves to be done.
    pub open spec fn evicted_record(self, i: int) -> Evicted {
        Evicted {
            backing: self.chunks[i].backing,
            asset: self.chunks[i].asset,
            notice: self.notice(i),
        }
    }

    /// After the eviction of slot `i`.
    pub open spec fn evicted(self, i: int) -> Model {
        Model { stats: self.stats.evicted(self.cost_of(i)), ..self.cleared(i) }
    }

    /// The slab that backs chunks of `asset`, or 0 for the heap. An adopted chunk is
    /// always on the heap.
    pub open spec fn slab_of(self, asset: u32) -> usize {
        if asset != NONE && self.slab != 0 && self.assets[asset as int].source.backing
            == BACKING_SLAB {
            self.slab
        } else {
            0
        }
    }
}

/// No two slots back the same address.
pub open spec fn unique_addresses(m: Model) -> bool {
    forall|i: int, j: int|
        0 <= i < m.chunks.len() && 0 <= j < m.chunks.len() && (#[trigger] m.chunks[i]).backing != 0
            && (#[trigger] m.chunks[j]).backing == m.chunks[i].backing ==> i == j
}

/// A lookup by key finds a slot that holds the key, and fails only if none does.
pub proof fn lemma_resident(m: Model, asset: u32, index: u32)
    requires
        m.consistent(),
    ensures
        match m.resident(asset, index) {
            Some(i) => 0 <= i < m.chunks.len() && m.chunks[i].holds(asset, index),
            None => forall|i: int|
                0 <= i < m.chunks.len() ==> !(#[trigger] m.chunks[i]).holds(asset, index),
        },
{
    if asset == NONE {
        let p = with_key(asset, index);
        lemma_first_pos(m.chunks, p);
        assert forall|i: int|
            0 <= i < m.chunks.len() && (#[trigger] m.chunks[i]).holds(asset, index) implies m.resident(
            asset,
            index,
        ) is Some by {
            assert(p(m.chunks[i]));
        }
    } else {
        lemma_key_bucket(asset, index, m.chains.len());
        let b = m.bucket(asset, index);
        let c = m.chains[b];
        let p = numbered_with_key(m.chunks, asset, index);
        lemma_first_pos(c, p);
        let k = first_pos(c, p) as int;
        if k < c.len() {
            assert(0 <= m.chains[b][k] < m.chunks.len());
        }
        assert forall|i: int|
            0 <= i < m.chunks.len() && (#[trigger] m.chunks[i]).holds(asset, index) implies m.resident(
            asset,
            index,
        ) is Some by {
            assert(m.chunks[i].keyed());
            assert(c.contains(i));
            let q = choose|q: int| 0 <= q < c.len() && c[q] == i;
            assert(p(c[q]));
        }
    }
}

/// A lookup by address finds the first slot that backs it, and fails only for 0 or if
/// none does.
pub proof fn lemma_slot_at(m: Model, p: usize)
    ensures
        match m.slot_at(p) {
            Some(i) => {
                &&& p != 0
                &&& 0 <= i < m.chunks.len()
                &&& m.chunks[i].backing == p
                &&& forall|j: int| 0 <= j < i ==> (#[trigger] m.chunks[j]).backing != p
            },
            None => p == 0 || forall|i: int|
                0 <= i < m.chunks.len() ==> (#[trigger] m.chunks[i]).backing != p,
        },
{
    let q = at_address(p);
    lemma_first_pos(m.chunks, q);
    let k = first_pos(m.chunks, q) as int;
    assert forall|i: int| 0 <= i < k implies (#[trigger] m.chunks[i]).backing != p by {
        assert(!q(m.chunks[i]));
    }
}

/// Who an asset tells of the eviction of its chunk `index`.
pub open spec fn asset_notice(a: AssetSlot, index: u32) -> Notice {
    match a.source.on_evict {
        Some(callback) => Notice::Owner { callback, ctx: a.source.ctx, owner: a.owner, index },
        None => Notice::Silent,
    }
}

} // verus!
