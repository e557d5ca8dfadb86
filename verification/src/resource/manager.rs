//! The manager's tables: assets, chunk slots, leases, the load queue and eviction.
//!
//! Each function here is one step on the tables. The outside work between steps
//! (allocating, running callbacks, freeing) is composed in `facade`.
use crate::resource::index::{chains_ok, HashIndex, NONE};
use crate::resource::model::{
    asset_notice, at_address, first_pos, lemma_first_pos_is, numbered_with_key,
    unused_asset, visits, with_key, Model,
};
use crate::resource::types::{
    cost_bucket, rank_before, ranks_before, AssetSlot, Begin, Build, ChunkSlot, Evicted, Notice,
    Rank, RankInput,
    Source, Stats, BACKING_SLAB, COST_BUCKETS, NO_SLOT,
};
use vstd::prelude::*;

verus! {

/// The cache of chunks.
pub struct Manager {
    slab: usize,
    assets: Vec<AssetSlot>,
    chunks: Vec<ChunkSlot>,
    index: HashIndex,
    tick: u64,
    protect: u32,
    stats: Stats,
    alloc_gen: u32,
}

impl Manager {
    /// The tables' contents.
    pub closed spec fn view(&self) -> Model {
        Model {
            slab: self.slab,
            assets: self.assets@,
            chunks: self.chunks@,
            chains: self.index@,
            tick: self.tick,
            protect: self.protect,
            stats: self.stats,
            alloc_gen: self.alloc_gen,
        }
    }

    /// The links of the hash index are those of the chains.
    pub closed spec fn linked(&self) -> bool {
        self.index.wf() && self.index.slots() == self.chunks@.len()
    }

    /// The hash index agrees with the tables.
    pub open spec fn wf(&self) -> bool {
        self.linked() && self@.consistent()
    }

    // ---- lookups ----

    /// The slot that holds `(asset, index)`, by walking the key's chain. Adopted
    /// chunks have no chain, so their key is searched for in the whole table.
    pub fn find_resident(&mut self, asset: u32, index: u32) -> (r: Option<usize>)
        requires
            old(self).wf(),
        ensures
            final(self).wf(),
            final(self)@ == old(self)@.searched(asset, index),
            slot_number(r) == old(self)@.resident(asset, index),
            r is Some ==> r->0 < old(self)@.chunks.len()
                && old(self)@.chunks[r->0 as int].holds(asset, index),
            r is None ==> forall|i: int|
                0 <= i < old(self)@.chunks.len() ==> !(#[trigger] old(self)@.chunks[i]).holds(
                    asset,
                    index,
                ),
    {
        let ghost m = self@;
        let (found, visited): (Option<usize>, u64) = if asset == NONE {
            self.scan_key(asset, index)
        } else {
            self.walk(asset, index)
        };
        self.stats.scan_resident_calls = self.stats.scan_resident_calls.wrapping_add(1);
        self.stats.scan_resident_slots = self.stats.scan_resident_slots.wrapping_add(visited);
        assert(self@ =~= m.searched(asset, index));
        found
    }

    /// Looks for `(asset, index)` in the whole table; gives the slot and how many
    /// were visited.
    fn scan_key(&self, asset: u32, index: u32) -> (r: (Option<usize>, u64))
        requires
            self.wf(),
            asset == NONE,
        ensures
            slot_number(r.0) == self@.resident(asset, index),
            r.1 == self@.resident_visits(asset, index),
            r.0 is Some ==> r.0->0 < self@.chunks.len() && self@.chunks[r.0->0 as int].holds(
                asset,
                index,
            ),
            r.0 is None ==> forall|i: int|
                0 <= i < self@.chunks.len() ==> !(#[trigger] self@.chunks[i]).holds(asset, index),
    {
        let ghost q = with_key(asset, index);
        let mut i: usize = 0;
        while i < self.chunks.len() && !(self.chunks[i].backing != 0 && self.chunks[i].asset == asset
            && self.chunks[i].index == index)
            invariant
                i <= self.chunks@.len(),
                q == with_key(asset, index),
                forall|j: int| 0 <= j < i ==> !q(#[trigger] self.chunks@[j]),
            decreases self.chunks@.len() - i,
        {
            i = i + 1;
        }
        proof {
            lemma_first_pos_is(self.chunks@, q, i as int);
        }
        if i < self.chunks.len() {
            (Some(i), i as u64 + 1)
        } else {
            proof {
                assert forall|j: int| 0 <= j < self.chunks@.len() implies !(
                #[trigger] self.chunks@[j]).holds(asset, index) by {
                    assert(!q(self.chunks@[j]));
                }
            }
            (None, i as u64)
        }
    }

    /// Walks the chain of `(asset, index)`; gives the slot and how many were
    /// visited.
    fn walk(&self, asset: u32, index: u32) -> (r: (Option<usize>, u64))
        requires
            self.wf(),
            asset != NONE,
        ensures
            slot_number(r.0) == self@.resident(asset, index),
            r.1 == self@.resident_visits(asset, index),
            r.0 is Some ==> r.0->0 < self@.chunks.len() && self@.chunks[r.0->0 as int].holds(
                asset,
                index,
            ),
            r.0 is None ==> forall|i: int|
                0 <= i < self@.chunks.len() ==> !(#[trigger] self@.chunks[i]).holds(asset, index),
    {
        let ghost m = self@;
        let b: usize = self.index.bucket_of(asset, index);
        let ghost c = m.chains[b as int];
        let ghost p = numbered_with_key(m.chunks, asset, index);
        proof {
            self.index.lemma_shape();
            assert(self.index@[b as int].len() <= self.index.slots());
            if c.len() > 0 {
                assert(0 <= m.chains[b as int][0] < m.chunks.len());
            }
        }
        let mut visited: u64 = 0;
        let mut cur: u32 = self.index.head(b);
        while cur != NONE
            invariant
                self@ == m,
                self.linked(),
                m.chunks.len() <= 0x8000_0000,
                chains_ok(m.chains, m.chunks.len()),
                0 <= b < m.chains.len(),
                m.resident(asset, index) == ({
                    let k = first_pos(c, p);
                    if k < c.len() {
                        Some(c[k as int])
                    } else {
                        None
                    }
                }),
                m.resident_visits(asset, index) == visits(c, p),
                c == m.chains[b as int],
                c.len() <= m.chunks.len(),
                p == numbered_with_key(m.chunks, asset, index),
                0 <= visited <= c.len(),
                cur == (if visited < c.len() { c[visited as int] } else { NONE as int }),
                cur != NONE ==> cur < m.chunks.len(),
                forall|j: int| 0 <= j < visited ==> !p(#[trigger] c[j]),
            ensures
                visited == c.len(),
                forall|j: int| 0 <= j < c.len() ==> !p(#[trigger] c[j]),
            decreases c.len() - visited,
        {
            let ghost k = visited as int;
            proof {
                assert(m.chains[b as int][k] < m.chunks.len());
                self.index.lemma_link(b as int, k);
            }
            let i: usize = cur as usize;
            visited = visited + 1;
            let s = self.chunks[i];
            if s.backing != 0 && s.asset == asset && s.index == index {
                proof {
                    lemma_first_pos_is(c, p, k);
                }
                return (Some(i), visited);
            }
            cur = self.index.next_of(i);
            proof {
                assert(!p(c[k]));
                if k + 1 < c.len() {
                    assert(0 <= m.chains[b as int][k + 1] < m.chunks.len());
                }
            }
        }
        proof {
            lemma_first_pos_is(c, p, c.len() as int);
            assert forall|j: int| 0 <= j < m.chunks.len() implies !(#[trigger] m.chunks[j]).holds(
                asset,
                index,
            ) by {
                if m.chunks[j].holds(asset, index) {
                    assert(m.chunks[j].keyed() && m.home(j) == b);
                    let q = choose|q: int| 0 <= q < c.len() && c[q] == j;
                    assert(!p(c[q]));
                }
            }
        }
        (None, visited)
    }

    /// The slot of the resident chunk at address `p`.
    pub fn find_by_ptr(&mut self, p: usize) -> (r: Option<usize>)
        requires
            old(self).wf(),
        ensures
            final(self).wf(),
            final(self)@ == old(self)@.searched_ptr(p),
            slot_number(r) == old(self)@.slot_at(p),
            r is Some ==> r->0 < old(self)@.chunks.len()
                && old(self)@.chunks[r->0 as int].backing == p,
    {
        let ghost m = self@;
        let mut visited: usize = 0;
        let mut found: Option<usize> = None;
        if p != 0 {
            let (k, v): (usize, usize) = self.scan(p);
            visited = v;
            if k < self.chunks.len() {
                found = Some(k);
            }
        }
        self.stats.scan_ptr_calls = self.stats.scan_ptr_calls.wrapping_add(1);
        self.stats.scan_ptr_slots = self.stats.scan_ptr_slots.wrapping_add(visited as u64);
        assert(self@ =~= m.searched_ptr(p));
        found
    }

    /// The first free slot.
    pub fn find_free_chunk(&mut self) -> (r: Option<usize>)
        requires
            old(self).wf(),
        ensures
            final(self).wf(),
            final(self)@ == old(self)@.searched_free(),
            slot_number(r) == old(self)@.free_slot(),
            r is Some ==> r->0 < old(self)@.chunks.len()
                && old(self)@.chunks[r->0 as int].backing == 0,
            r is None ==> forall|i: int|
                0 <= i < old(self)@.chunks.len() ==> (#[trigger] old(self)@.chunks[i]).backing != 0,
    {
        let ghost m = self@;
        let (k, v): (usize, usize) = self.scan(0);
        self.stats.scan_free_calls = self.stats.scan_free_calls.wrapping_add(1);
        self.stats.scan_free_slots = self.stats.scan_free_slots.wrapping_add(v as u64);
        assert(self@ =~= m.searched_free());
        proof {
            if k == m.chunks.len() {
                assert forall|i: int| 0 <= i < m.chunks.len() implies (
                #[trigger] m.chunks[i]).backing != 0 by {
                    assert(!at_address(0)(m.chunks[i]));
                }
            }
        }
        if k < self.chunks.len() {
            Some(k)
        } else {
            None
        }
    }

    /// The position of the first slot that backs `p`, and how many were visited.
    fn scan(&self, p: usize) -> (r: (usize, usize))
        requires
            self.wf(),
        ensures
            r.0 == first_pos(self@.chunks, at_address(p)),
            r.1 == visits(self@.chunks, at_address(p)),
            r.1 <= self@.chunks.len(),
            r.0 <= self@.chunks.len(),
            forall|j: int| 0 <= j < r.0 ==> !at_address(p)(#[trigger] self@.chunks[j]),
            r.0 < self@.chunks.len() ==> self@.chunks[r.0 as int].backing == p,
    {
        let mut i: usize = 0;
        while i < self.chunks.len() && self.chunks[i].backing != p
            invariant
                i <= self.chunks@.len(),
                forall|j: int| 0 <= j < i ==> !at_address(p)(#[trigger] self.chunks@[j]),
            decreases self.chunks@.len() - i,
        {
            i = i + 1;
        }
        proof {
            lemma_first_pos_is(self.chunks@, at_address(p), i as int);
        }
        if i < self.chunks.len() {
            (i, i + 1)
        } else {
            (i, i)
        }
    }

    // ---- slots ----

    /// The slot of the resident chunk at `p`, or `NO_SLOT`.
    pub fn slot_of(&mut self, p: usize) -> (r: u32)
        requires
            old(self).wf(),
        ensures
            final(self).wf(),
            final(self)@ == old(self)@.searched_ptr(p),
            match old(self)@.slot_at(p) {
                Some(i) => r == i,
                None => r == NO_SLOT,
            },
    {
        match self.find_by_ptr(p) {
            Some(i) => i as u32,
            None => NO_SLOT,
        }
    }

    /// The hard leases on the chunk in `slot`; 0 if the slot is out of range or free.
    pub fn lease_count_by_slot(&self, slot: u32) -> (r: u32)
        requires
            self.wf(),
        ensures
            r == (if self@.live(slot) { self@.chunks[slot as int].leases } else { 0 }),
    {
        let i: usize = slot as usize;
        if i >= self.chunks.len() {
            return 0;
        }
        let s = self.chunks[i];
        if s.backing == 0 {
            return 0;
        }
        s.leases
    }

    /// The hard leases on the chunk in `slot` but for the load queue's own: whether
    /// anyone besides the queue still wants the chunk.
    pub fn external_lease_count_by_slot(&self, slot: u32) -> (r: u32)
        requires
            self.wf(),
        ensures
            r == (if self@.live(slot) {
                self@.chunks[slot as int].queue_released().leases
            } else {
                0
            }),
    {
        let i: usize = slot as usize;
        if i >= self.chunks.len() {
            return 0;
        }
        let s = self.chunks[i];
        if s.backing == 0 {
            return 0;
        }
        s.leases.saturating_sub(if s.queue_leased { 1 } else { 0 })
    }

    /// The `(asset, index)` of the resident chunk at `p`.
    pub fn chunk_ident(&mut self, p: usize) -> (r: Option<(u32, u32)>)
        requires
            old(self).wf(),
        ensures
            final(self).wf(),
            final(self)@ == old(self)@.searched_ptr(p),
            match old(self)@.slot_at(p) {
                Some(i) => r == Some(
                    (old(self)@.chunks[i].asset, old(self)@.chunks[i].index),
                ),
                None => r is None,
            },
    {
        match self.find_by_ptr(p) {
            Some(i) => {
                let s = self.chunks[i];
                Some((s.asset, s.index))
            },
            None => None,
        }
    }

    /// The generation stamped on the chunk in `slot`; 0 if the slot is out of range
    /// or free.
    pub fn generation_of_slot(&self, slot: u32) -> (r: u32)
        requires
            self.wf(),
        ensures
            r == (if self@.live(slot) { self@.chunks[slot as int].generation } else { 0 }),
    {
        let i: usize = slot as usize;
        if i >= self.chunks.len() {
            return 0;
        }
        let s = self.chunks[i];
        if s.backing == 0 {
            return 0;
        }
        s.generation
    }

    /// Leases the chunk in `slot` if the slot still holds the chunk stamped `gen`.
    pub fn retain_by_slot_gen(&mut self, slot: u32, gen: u32) -> (r: bool)
        requires
            old(self).wf(),
        ensures
            final(self).wf(),
            final(self)@ == old(self)@.retain(slot, gen),
            r == old(self)@.current(slot, gen),
    {
        let i: usize = slot as usize;
        if i >= self.chunks.len() {
            return false;
        }
        let t: u64 = self.bump();
        let mut s = self.chunks[i];
        if s.backing == 0 || s.generation != gen {
            return false;
        }
        s.leases = s.leases.wrapping_add(1);
        s.recency = t;
        self.put(i, s);
        true
    }

    /// Gives back a lease on the chunk in `slot` if the slot still holds the chunk
    /// stamped `gen`.
    pub fn release_by_slot_gen(&mut self, slot: u32, gen: u32) -> (r: bool)
        requires
            old(self).wf(),
        ensures
            final(self).wf(),
            final(self)@ == old(self)@.release_slot(slot, gen),
            r == old(self)@.current(slot, gen),
    {
        let i: usize = slot as usize;
        if i >= self.chunks.len() {
            return false;
        }
        let mut s = self.chunks[i];
        if s.backing == 0 || s.generation != gen {
            return false;
        }
        s.leases = s.leases.saturating_sub(1);
        self.put(i, s);
        true
    }

    // ---- the load queue ----

    /// Queues the chunk in `slot` for loading; a chunk already queued changes its
    /// priority. Lower is more urgent.
    pub fn loader_enqueue(&mut self, slot: u32, priority: u32)
        requires
            old(self).wf(),
        ensures
            final(self).wf(),
            final(self)@ == old(self)@.enqueue(slot, priority),
    {
        let i: usize = slot as usize;
        if i >= self.chunks.len() {
            return;
        }
        let mut s = self.chunks[i];
        if s.backing == 0 {
            return;
        }
        s.queued = true;
        s.queue_priority = priority;
        self.put(i, s);
    }

    /// Queues the chunk in `slot` with a lease that the queue itself holds, so that
    /// the entry survives the caller's giving up its own. A second call takes no
    /// second lease.
    pub fn loader_enqueue_owned(&mut self, slot: u32, priority: u32)
        requires
            old(self).wf(),
        ensures
            final(self).wf(),
            final(self)@ == old(self)@.enqueue_owned(slot, priority),
    {
        let i: usize = slot as usize;
        if i >= self.chunks.len() {
            return;
        }
        let mut s = self.chunks[i];
        if s.backing == 0 {
            return;
        }
        if !s.queue_leased {
            s.leases = s.leases.wrapping_add(1);
            s.queue_leased = true;
        }
        s.queued = true;
        s.queue_priority = priority;
        self.put(i, s);
    }

    /// Gives back the queue's own lease; says whether there was one. The chunk stays
    /// queued if it is.
    pub fn loader_release_owned(&mut self, slot: u32) -> (r: bool)
        requires
            old(self).wf(),
        ensures
            final(self).wf(),
            final(self)@ == old(self)@.release_owned(slot),
            r == (old(self)@.live(slot) && old(self)@.chunks[slot as int].queue_leased),
    {
        let i: usize = slot as usize;
        if i >= self.chunks.len() {
            return false;
        }
        let mut s = self.chunks[i];
        if s.backing == 0 || !s.queue_leased {
            return false;
        }
        s.leases = s.leases.saturating_sub(1);
        s.queue_leased = false;
        self.put(i, s);
        true
    }

    /// Takes the chunk in `slot` out of the load queue, and with it the queue's own
    /// lease.
    pub fn loader_remove(&mut self, slot: u32)
        requires
            old(self).wf(),
        ensures
            final(self).wf(),
            final(self)@ == old(self)@.dequeue(slot),
    {
        let i: usize = slot as usize;
        if i >= self.chunks.len() {
            return;
        }
        let mut s = self.chunks[i];
        if s.queued {
            s.queued = false;
        }
        if s.queue_leased {
            s.leases = s.leases.saturating_sub(1);
            s.queue_leased = false;
        }
        self.put(i, s);
    }

    /// Takes the most urgent queued chunk that is still leased off the queue and
    /// gives its address, or 0 if there is none. Chunks queued without a lease are
    /// dropped from the queue and stay resident.
    pub fn loader_next(&mut self) -> (r: usize)
        requires
            old(self).wf(),
        ensures
            final(self).wf(),
            final(self)@ == old(self)@.popped(),
            match old(self)@.next_up() {
                Some(i) => r == old(self)@.chunks[i].backing && r != 0,
                None => r == 0 && !old(self)@.has_any(),
            },
    {
        let ghost m = self@;
        let n: usize = self.chunks.len();
        let mut best: Option<usize> = None;
        let mut best_pri: u32 = u32::MAX;
        let mut i: usize = 0;
        while i < n
            invariant
                self@ == m,
                n == m.chunks.len(),
                i <= n,
                best is None ==> forall|j: int|
                    0 <= j < i ==> !(#[trigger] m.chunks[j]).servable(),
                best is Some ==> {
                    let b = best->0 as int;
                    &&& b < i
                    &&& m.chunks[b].servable()
                    &&& m.chunks[b].queue_priority == best_pri
                    &&& forall|j: int|
                        0 <= j < i && (#[trigger] m.chunks[j]).servable() ==> best_pri
                            <= m.chunks[j].queue_priority && (j < b ==> best_pri
                            < m.chunks[j].queue_priority)
                },
            decreases n - i,
        {
            let s = self.chunks[i];
            if s.queued && s.backing != 0 && s.leases > 0 {
                if best.is_none() || s.queue_priority < best_pri {
                    best = Some(i);
                    best_pri = s.queue_priority;
                }
            }
            i = i + 1;
        }
        proof {
            if best is Some {
                let b = best->0 as int;
                assert(m.first_urgent(b));
                let w = choose|w: int| m.first_urgent(w);
                assert(m.first_urgent(w));
                assert(w == b);
            } else if exists|w: int| m.first_urgent(w) {
                let w = choose|w: int| m.first_urgent(w);
                assert(m.chunks[w].servable());
            }
        }
        let ghost p = m.popped();
        let mut k: usize = 0;
        while k < n
            invariant
                self.wf(),
                n == m.chunks.len(),
                p == m.popped(),
                m.next_up() == slot_number(best),
                k <= n,
                self@ == (Model { chunks: self@.chunks, ..m }),
                self@.chunks.len() == n,
                forall|j: int| 0 <= j < k ==> (#[trigger] self@.chunks[j]) == p.chunks[j],
                forall|j: int| k <= j < n ==> (#[trigger] self@.chunks[j]) == m.chunks[j],
            decreases n - k,
        {
            let mut s = self.chunks[k];
            let chosen = match best {
                Some(b) => b == k,
                None => false,
            };
            if s.backing != 0 && s.queued && (s.leases == 0 || chosen) {
                s.queued = false;
                self.put(k, s);
            }
            k = k + 1;
        }
        assert(self@.chunks =~= p.chunks);
        match best {
            Some(b) => self.chunks[b].backing,
            None => 0,
        }
    }

    /// Whether a chunk of the lowest urgency is left to load.
    pub fn loader_has_lowest(&self) -> (r: bool)
        requires
            self.wf(),
        ensures
            r == self@.has_lowest(),
    {
        let mut i: usize = 0;
        while i < self.chunks.len()
            invariant
                i <= self@.chunks.len(),
                forall|j: int|
                    0 <= j < i ==> !((#[trigger] self@.chunks[j]).servable()
                        && self@.chunks[j].queue_priority == u32::MAX),
            decreases self@.chunks.len() - i,
        {
            let s = self.chunks[i];
            if s.queued && s.backing != 0 && s.leases > 0 && s.queue_priority == u32::MAX {
                assert(self@.chunks[i as int].servable());
                return true;
            }
            i = i + 1;
        }
        false
    }

    /// Whether any chunk is left to load: whether `loader_next` would give one.
    pub fn loader_has_any(&self) -> (r: bool)
        requires
            self.wf(),
        ensures
            r == self@.has_any(),
    {
        let mut i: usize = 0;
        while i < self.chunks.len()
            invariant
                i <= self@.chunks.len(),
                forall|j: int| 0 <= j < i ==> !(#[trigger] self@.chunks[j]).servable(),
            decreases self@.chunks.len() - i,
        {
            let s = self.chunks[i];
            if s.queued && s.backing != 0 && s.leases > 0 {
                assert(self@.chunks[i as int].servable());
                return true;
            }
            i = i + 1;
        }
        false
    }

    // ---- leases and marks, by address ----

    /// Moves the clock on and gives the time.
    fn bump(&mut self) -> (r: u64)
        requires
            old(self).wf(),
        ensures
            final(self).wf(),
            final(self)@ == old(self)@.ticked(),
            r == final(self)@.tick,
    {
        self.tick = self.tick.wrapping_add(1);
        assert(self@ =~= old(self)@.ticked());
        self.tick
    }

    /// Leases the resident chunk at `p` once more.
    pub fn add_lease(&mut self, p: usize)
        requires
            old(self).wf(),
        ensures
            final(self).wf(),
            final(self)@ == old(self)@.add_lease(p),
    {
        let t: u64 = self.bump();
        match self.find_by_ptr(p) {
            Some(i) => {
                let mut s = self.chunks[i];
                s.leases = s.leases.wrapping_add(1);
                s.recency = t;
                self.put(i, s);
            },
            None => {},
        }
    }

    /// Gives back one lease on the resident chunk at `p`; it stays resident.
    pub fn release(&mut self, p: usize)
        requires
            old(self).wf(),
        ensures
            final(self).wf(),
            final(self)@ == old(self)@.release(p),
    {
        match self.find_by_ptr(p) {
            Some(i) => self.release_at(i, p),
            None => {},
        }
    }

    /// Gives back one lease on slot `i`, if it still backs `p`: the window that ends a
    /// release, after the slot was looked for.
    pub fn release_at(&mut self, i: usize, p: usize)
        requires
            old(self).wf(),
            i < old(self)@.chunks.len(),
            p != 0,
        ensures
            final(self).wf(),
            final(self)@ == (if old(self)@.chunks[i as int].backing == p {
                old(self)@.with_chunk(i as int, old(self)@.chunks[i as int].released())
            } else {
                old(self)@
            }),
    {
        let mut s = self.chunks[i];
        if s.backing != p {
            return;
        }
        if s.leases > 0 {
            s.leases = s.leases - 1;
        }
        self.put(i, s);
    }

    /// Makes the resident chunk at `p` the most recently used.
    pub fn touch(&mut self, p: usize)
        requires
            old(self).wf(),
        ensures
            final(self).wf(),
            final(self)@ == old(self)@.touch(p),
    {
        let t: u64 = self.bump();
        match self.find_by_ptr(p) {
            Some(i) => {
                let mut s = self.chunks[i];
                s.recency = t;
                self.put(i, s);
            },
            None => {},
        }
    }

    /// Marks the resident chunk at `p` unsaved, so that it is never evicted, or saved.
    pub fn set_dirty(&mut self, p: usize, dirty: bool)
        requires
            old(self).wf(),
        ensures
            final(self).wf(),
            final(self)@ == old(self)@.set_dirty(p, dirty),
    {
        match self.find_by_ptr(p) {
            Some(i) => {
                let mut s = self.chunks[i];
                s.dirty = dirty;
                self.put(i, s);
            },
            None => {},
        }
    }

    /// Marks a requested chunk ready: its data has been read.
    pub fn mark_ready(&mut self, p: usize)
        requires
            old(self).wf(),
        ensures
            final(self).wf(),
            final(self)@ == old(self)@.mark_ready(p),
    {
        match self.find_by_ptr(p) {
            Some(i) => {
                let mut s = self.chunks[i];
                s.ready = true;
                self.put(i, s);
            },
            None => {},
        }
    }

    /// Whether the chunk at `p` is resident and ready.
    pub fn is_ready_by_ptr(&mut self, p: usize) -> (r: bool)
        requires
            old(self).wf(),
        ensures
            final(self).wf(),
            final(self)@ == old(self)@.searched_ptr(p),
            match old(self)@.slot_at(p) {
                Some(i) => r == old(self)@.chunks[i].ready,
                None => !r,
            },
    {
        match self.find_by_ptr(p) {
            Some(i) => self.chunks[i].ready,
            None => false,
        }
    }

    // ---- by key, without allocating ----

    /// Leases the chunk of `(asset, index)` and gives its address, if it is resident
    /// and ready; 0 otherwise. Never allocates.
    pub fn try_acquire(&mut self, asset: u32, index: u32) -> (r: usize)
        requires
            old(self).wf(),
        ensures
            final(self).wf(),
            final(self)@ == old(self)@.try_acquire(asset, index),
            r == old(self)@.try_acquire_result(asset, index),
    {
        match self.find_resident(asset, index) {
            Some(i) => {
                let t: u64 = self.bump();
                let mut s = self.chunks[i];
                if !s.ready {
                    return 0;
                }
                s.leases = s.leases.wrapping_add(1);
                s.recency = t;
                self.put(i, s);
                s.backing
            },
            None => 0,
        }
    }

    /// The address of the chunk of `(asset, index)` if it is resident, ready or not;
    /// 0 otherwise. Takes no lease and leaves the eviction order alone.
    pub fn peek(&mut self, asset: u32, index: u32) -> (r: usize)
        requires
            old(self).wf(),
        ensures
            final(self).wf(),
            final(self)@ == old(self)@.searched(asset, index),
            r == old(self)@.peek_result(asset, index),
    {
        match self.find_resident(asset, index) {
            Some(i) => self.chunks[i].backing,
            None => 0,
        }
    }

    // ---- assets ----

    /// Empty tables for `asset_cap` assets and `chunk_cap` resident chunks; nothing if
    /// either is zero.
    pub fn new(asset_cap: usize, chunk_cap: usize) -> (r: Option<Manager>)
        requires
            asset_cap <= NONE,
            chunk_cap <= 0x8000_0000,
        ensures
            r is None <==> asset_cap == 0 || chunk_cap == 0,
            match r {
                Some(m) => {
                    &&& m.wf()
                    &&& m@.slab == 0
                    &&& m@.assets == Seq::new(asset_cap as nat, |i: int| AssetSlot::spec_empty())
                    &&& m@.chunks == Seq::new(chunk_cap as nat, |i: int| ChunkSlot::spec_empty())
                    &&& m@.tick == 0
                    &&& m@.protect == NONE
                    &&& m@.stats.zero()
                    &&& m@.alloc_gen == 0
                },
                None => true,
            },
    {
        if asset_cap == 0 || chunk_cap == 0 {
            return None;
        }
        let mut assets: Vec<AssetSlot> = Vec::new();
        let mut i: usize = 0;
        while i < asset_cap
            invariant
                i <= asset_cap,
                assets@ == Seq::new(i as nat, |j: int| AssetSlot::spec_empty()),
            decreases asset_cap - i,
        {
            assets.push(AssetSlot::empty());
            i = i + 1;
            assert(assets@ =~= Seq::new(i as nat, |j: int| AssetSlot::spec_empty()));
        }
        let mut chunks: Vec<ChunkSlot> = Vec::new();
        let mut k: usize = 0;
        while k < chunk_cap
            invariant
                k <= chunk_cap,
                chunks@ == Seq::new(k as nat, |j: int| ChunkSlot::spec_empty()),
            decreases chunk_cap - k,
        {
            chunks.push(ChunkSlot::empty());
            k = k + 1;
            assert(chunks@ =~= Seq::new(k as nat, |j: int| ChunkSlot::spec_empty()));
        }
        let index = HashIndex::new(chunk_cap);
        let m = Manager {
            slab: 0,
            assets,
            chunks,
            index,
            tick: 0,
            protect: NONE,
            stats: Stats::default(),
            alloc_gen: 0,
        };
        proof {
            m.index.lemma_shape();
            assert forall|b: int, j: int|
                0 <= b < m@.chains.len() && #[trigger] m@.chains[b].contains(j) implies false by {
                assert(m.index@[b] == Seq::<int>::empty());
            }
        }
        Some(m)
    }

    /// Writes asset slot `a`.
    fn put_asset(&mut self, a: usize, s: AssetSlot)
        requires
            old(self).wf(),
            a < old(self)@.assets.len(),
        ensures
            final(self).wf(),
            final(self)@ == old(self)@.with_asset(a as u32, s),
    {
        self.assets.set(a, s);
        assert(self@ =~= old(self)@.with_asset(a as u32, s));
    }

    /// Takes a free asset slot for `owner`, whose chunks are rebuilt by `source`; gives
    /// its id, or `NONE` if the table is full.
    pub fn define_asset(&mut self, owner: usize, source: Source) -> (r: u32)
        requires
            old(self).wf(),
        ensures
            final(self).wf(),
            match old(self)@.free_asset() {
                Some(i) => {
                    &&& r == i
                    &&& r != NONE
                    &&& final(self)@ == old(self)@.defined(i, owner, source)
                },
                None => r == NONE && final(self)@ == old(self)@,
            },
    {
        let ghost m = self@;
        let ghost q = unused_asset();
        let mut i: usize = 0;
        while i < self.assets.len() && self.assets[i].in_use
            invariant
                self.assets@ == m.assets,
                i <= m.assets.len(),
                q == unused_asset(),
                forall|j: int| 0 <= j < i ==> !q(#[trigger] m.assets[j]),
            decreases m.assets.len() - i,
        {
            i = i + 1;
        }
        proof {
            lemma_first_pos_is(m.assets, q, i as int);
        }
        if i >= self.assets.len() {
            return NONE;
        }
        let mut a = self.assets[i];
        a.in_use = true;
        a.owner = owner;
        a.source = source;
        a.soft_refs = 0;
        self.put_asset(i, a);
        i as u32
    }

    /// Attaches or clears the callback that makes chunks of `asset` requestable.
    pub fn set_construct(&mut self, asset: u32, construct: Option<usize>)
        requires
            old(self).wf(),
        ensures
            final(self).wf(),
            final(self)@ == old(self)@.constructing(asset, construct),
    {
        let ai: usize = asset as usize;
        if ai >= self.assets.len() {
            return;
        }
        let mut a = self.assets[ai];
        a.source.construct = construct;
        self.put_asset(ai, a);
    }

    /// Says whether only the last resident chunk of `asset` may be evicted.
    pub fn set_evict_tail_first(&mut self, asset: u32, on: bool)
        requires
            old(self).wf(),
        ensures
            final(self).wf(),
            final(self)@ == old(self)@.tail_first(asset, on),
    {
        let ai: usize = asset as usize;
        if ai >= self.assets.len() {
            return;
        }
        let mut a = self.assets[ai];
        a.evict_tail_first = on;
        self.put_asset(ai, a);
    }

    /// Says whether the chunks of `asset` are safe from eviction while the asset
    /// allocates.
    pub fn set_self_protect(&mut self, asset: u32, on: bool)
        requires
            old(self).wf(),
        ensures
            final(self).wf(),
            final(self)@ == old(self)@.self_protecting(asset, on),
    {
        let ai: usize = asset as usize;
        if ai >= self.assets.len() {
            return;
        }
        let mut a = self.assets[ai];
        a.self_protect = on;
        self.put_asset(ai, a);
    }

    /// Adds `delta` soft references to `asset`; taking away more than there are leaves
    /// none.
    pub fn reference(&mut self, asset: u32, delta: i32)
        requires
            old(self).wf(),
        ensures
            final(self).wf(),
            final(self)@ == old(self)@.referenced(asset, delta),
    {
        let ai: usize = asset as usize;
        if ai >= self.assets.len() {
            return;
        }
        let mut a = self.assets[ai];
        if delta > 0 {
            a.soft_refs = a.soft_refs.wrapping_add(delta as u32);
        } else {
            let down: u32 = (-(delta as i64)) as u32;
            a.soft_refs = a.soft_refs.saturating_sub(down);
        }
        self.put_asset(ai, a);
    }

    /// Sets the slab that backs `BACKING_SLAB` assets; 0 puts all assets on the heap.
    pub fn set_slab(&mut self, slab: usize)
        requires
            old(self).wf(),
        ensures
            final(self).wf(),
            final(self)@ == (Model { slab, ..old(self)@ }),
    {
        self.slab = slab;
        assert(self@ =~= (Model { slab, ..old(self)@ }));
    }

    /// The slab that backs chunks of `asset`, or 0 for the heap.
    pub fn slab_for(&self, asset: u32) -> (r: usize)
        requires
            self.wf(),
            asset == NONE || asset < self@.assets.len(),
        ensures
            r == self@.slab_of(asset),
    {
        if asset != NONE && self.slab != 0 && self.assets[asset as usize].source.backing
            == BACKING_SLAB {
            self.slab
        } else {
            0
        }
    }

    /// The counters.
    pub fn stats_snapshot(&self) -> (r: Stats)
        ensures
            r == self@.stats,
    {
        self.stats
    }

    /// Sets the counters to zero.
    pub fn stats_reset(&mut self)
        requires
            old(self).wf(),
        ensures
            final(self).wf(),
            final(self)@ == (Model { stats: final(self)@.stats, ..old(self)@ }),
            final(self)@.stats.zero(),
    {
        self.stats = Stats::default();
        assert(self@ =~= (Model { stats: self@.stats, ..old(self)@ }));
    }

    // ---- eviction ----

    /// Whether no resident chunk of `asset` has an index above `index`.
    pub fn is_highest_resident(&self, asset: u32, index: u32) -> (r: bool)
        requires
            self.wf(),
        ensures
            r == self@.highest(asset, index),
    {
        let mut i: usize = 0;
        while i < self.chunks.len()
            invariant
                i <= self@.chunks.len(),
                forall|j: int|
                    0 <= j < i && (#[trigger] self@.chunks[j]).backing != 0 && self@.chunks[j].asset
                        == asset ==> self@.chunks[j].index <= index,
            decreases self@.chunks.len() - i,
        {
            let s = self.chunks[i];
            if s.backing != 0 && s.asset == asset && s.index > index {
                assert(self@.chunks[i as int].backing != 0);
                return false;
            }
            i = i + 1;
        }
        true
    }

    /// Whether slot `i` may be chosen for eviction.
    fn is_candidate(&self, i: usize) -> (r: bool)
        requires
            self.wf(),
            i < self@.chunks.len(),
        ensures
            r == self@.candidate(i as int),
    {
        let s = self.chunks[i];
        if s.backing == 0 || s.leases != 0 || s.dirty {
            return false;
        }
        if self.protect != NONE && s.asset == self.protect {
            return false;
        }
        if s.asset == NONE {
            return true;
        }
        if s.asset as usize >= self.assets.len() {
            return false;
        }
        !self.assets[s.asset as usize].evict_tail_first || self.is_highest_resident(s.asset, s.index)
    }

    /// For each slot what its eviction rank is computed from, or nothing if it may not
    /// be evicted.
    pub fn rank_inputs(&self) -> (r: Vec<Option<RankInput>>)
        requires
            self.wf(),
        ensures
            r@.len() == self@.chunks.len(),
            forall|i: int|
                0 <= i < r@.len() ==> #[trigger] r@[i] == (if self@.candidate(i) {
                    Some(self@.rank_input(i))
                } else {
                    None
                }),
    {
        let mut r: Vec<Option<RankInput>> = Vec::new();
        let mut i: usize = 0;
        while i < self.chunks.len()
            invariant
                self.wf(),
                i <= self@.chunks.len(),
                r@.len() == i,
                forall|j: int|
                    0 <= j < i ==> #[trigger] r@[j] == (if self@.candidate(j) {
                        Some(self@.rank_input(j))
                    } else {
                        None
                    }),
            decreases self@.chunks.len() - i,
        {
            if self.is_candidate(i) {
                let s = self.chunks[i];
                let soft_refs: u32 = if s.asset == NONE {
                    0
                } else {
                    self.assets[s.asset as usize].soft_refs
                };
                let cost: u32 = self.slot_cost(i);
                r.push(Some(RankInput { soft_refs, cost, size: s.size, recency: s.recency }));
            } else {
                r.push(None);
            }
            i = i + 1;
        }
        r
    }

    /// What rebuilding the chunk in slot `i` costs.
    fn slot_cost(&self, i: usize) -> (r: u32)
        requires
            self.wf(),
            i < self@.chunks.len(),
            self@.chunks[i as int].backing != 0,
        ensures
            r == self@.cost_of(i as int),
    {
        let s = self.chunks[i];
        if s.asset == NONE {
            s.cost
        } else {
            self.assets[s.asset as usize].source.cost
        }
    }

    /// Chooses the slot to evict, given each slot's rank: the candidate of the lowest
    /// rank. A caller that finds the slot it was given changed meanwhile asks again and
    /// names it as `skip`.
    pub fn pick_victim(&self, ranks: &Vec<Rank>, skip: Option<usize>) -> (r: Option<usize>)
        requires
            self.wf(),
            ranks@.len() == self@.chunks.len(),
        ensures
            self@.victim(ranks@, slot_number(skip), slot_number(r)),
    {
        let mut best: Option<usize> = None;
        let mut i: usize = 0;
        while i < self.chunks.len()
            invariant
                self.wf(),
                ranks@.len() == self@.chunks.len(),
                i <= self@.chunks.len(),
                best is None ==> forall|j: int|
                    0 <= j < i && #[trigger] self@.candidate(j) ==> slot_number(skip) == Some(j),
                best is Some ==> {
                    let b = best->0 as int;
                    &&& b < i
                    &&& self@.candidate(b)
                    &&& slot_number(skip) != Some(b)
                    &&& forall|j: int|
                        0 <= j < i && #[trigger] self@.candidate(j) && slot_number(skip) != Some(j)
                            ==> !rank_before(ranks@[j], ranks@[b]) && (j < b ==> rank_before(
                            ranks@[b],
                            ranks@[j],
                        ))
                },
            decreases self@.chunks.len() - i,
        {
            let skipped = match skip {
                Some(k) => k == i,
                None => false,
            };
            if !skipped && self.is_candidate(i) {
                let better = match best {
                    Some(b) => ranks_before(ranks[i], ranks[b]),
                    None => true,
                };
                if better {
                    best = Some(i);
                }
            }
            i = i + 1;
        }
        best
    }

    /// Counts one search for a victim.
    pub fn note_evict_scan(&mut self)
        requires
            old(self).wf(),
        ensures
            final(self).wf(),
            final(self)@ == (Model {
                stats: old(self)@.stats.scanned_evict(old(self)@.chunks.len()),
                ..old(self)@
            }),
    {
        let n: u64 = self.chunks.len() as u64;
        self.stats.scan_evict_calls = self.stats.scan_evict_calls.wrapping_add(1);
        self.stats.scan_evict_slots = self.stats.scan_evict_slots.wrapping_add(n);
        assert(self@ =~= (Model {
            stats: old(self)@.stats.scanned_evict(old(self)@.chunks.len()),
            ..old(self)@
        }));
    }

    /// Evicts the chunk in slot `i` if it still may be evicted: empties the slot and
    /// gives what is left to be done. The slot is empty before anyone is told.
    pub fn evict_slot(&mut self, i: usize) -> (r: Option<Evicted>)
        requires
            old(self).wf(),
            i < old(self)@.chunks.len(),
        ensures
            final(self).wf(),
            if old(self)@.chunks[i as int].evictable() {
                &&& r == Some(old(self)@.evicted_record(i as int))
                &&& final(self)@ == old(self)@.evicted(i as int)
            } else {
                &&& r is None
                &&& final(self)@ == old(self)@
            },
    {
        let ghost m = self@;
        let s = self.chunks[i];
        if s.backing == 0 || s.leases != 0 || s.dirty {
            return None;
        }
        let cost: u32 = self.slot_cost(i);
        let notice = if s.asset == NONE {
            match s.adopt_evict {
                Some(callback) => Notice::Adopter {
                    callback,
                    ctx: s.adopt_ctx,
                    backing: s.backing,
                },
                None => Notice::Silent,
            }
        } else {
            owner_notice(&self.assets[s.asset as usize], s.index)
        };
        self.clear(i);
        let ghost c = self@;
        let bucket: usize = if (cost as usize) < COST_BUCKETS {
            cost as usize
        } else {
            COST_BUCKETS - 1
        };
        let count: u64 = self.stats.evictions_by_cost[bucket].wrapping_add(1);
        self.stats.evictions = self.stats.evictions.wrapping_add(1);
        self.stats.evictions_by_cost[bucket] = count;
        proof {
            assert(self.stats.evictions_by_cost =~= vstd::array::spec_array_update(
                m.stats.evictions_by_cost,
                cost_bucket(cost),
                m.stats.evictions_by_cost[cost_bucket(cost)].wrapping_add(1),
            ));
            assert(self@ =~= m.evicted(i as int));
        }
        Some(Evicted { backing: s.backing, asset: s.asset, notice })
    }

    /// Drops the resident chunk at `p` without telling its owner, who is discarding it.
    /// Gives what is left to be freed.
    pub fn evict_chunk(&mut self, p: usize) -> (r: Option<Evicted>)
        requires
            old(self).wf(),
        ensures
            final(self).wf(),
            final(self)@ == old(self)@.evict_chunk(p),
            match old(self)@.slot_at(p) {
                Some(i) => r == Some(
                    (Evicted {
                        backing: p,
                        asset: old(self)@.chunks[i].asset,
                        notice: Notice::Silent,
                    }),
                ),
                None => r is None,
            },
    {
        match self.find_by_ptr(p) {
            Some(i) => {
                let asset: u32 = self.chunks[i].asset;
                self.clear(i);
                Some(Evicted { backing: p, asset, notice: Notice::Silent })
            },
            None => None,
        }
    }

    // ---- reserving ----

    /// Starts acquiring chunk `index` of `asset`: a resident chunk is leased.
    pub fn begin_acquire(&mut self, asset: u32, index: u32) -> (r: Begin)
        requires
            old(self).wf(),
        ensures
            final(self).wf(),
            begins(
                old(self)@,
                old(self)@.usable(asset),
                Stats {
                    acquires: old(self)@.stats.acquires.wrapping_add(1),
                    acquire_hits: if old(self)@.resident(asset, index) is Some {
                        old(self)@.stats.acquire_hits.wrapping_add(1)
                    } else {
                        old(self)@.stats.acquire_hits
                    },
                    ..old(self)@.stats
                },
                asset,
                index,
                r,
                final(self)@,
            ),
    {
        let ai: usize = asset as usize;
        if ai >= self.assets.len() || !self.assets[ai].in_use {
            return Begin::Refused;
        }
        self.stats.acquires = self.stats.acquires.wrapping_add(1);
        match self.find_resident(asset, index) {
            Some(i) => {
                let p: usize = self.lease_found(i);
                self.stats.acquire_hits = self.stats.acquire_hits.wrapping_add(1);
                Begin::Hit(p)
            },
            None => Begin::Miss { previous: self.protect_asset(asset) },
        }
    }

    /// Starts requesting chunk `index` of `asset`: a resident chunk is leased, loaded or
    /// not.
    pub fn begin_request(&mut self, asset: u32, index: u32) -> (r: Begin)
        requires
            old(self).wf(),
        ensures
            final(self).wf(),
            begins(
                old(self)@,
                old(self)@.requestable(asset),
                Stats {
                    requests: old(self)@.stats.requests.wrapping_add(1),
                    ..old(self)@.stats
                },
                asset,
                index,
                r,
                final(self)@,
            ),
    {
        let ai: usize = asset as usize;
        if ai >= self.assets.len() || !self.assets[ai].in_use {
            return Begin::Refused;
        }
        if self.assets[ai].source.construct.is_none() {
            return Begin::Refused;
        }
        self.stats.requests = self.stats.requests.wrapping_add(1);
        match self.find_resident(asset, index) {
            Some(i) => Begin::Hit(self.lease_found(i)),
            None => Begin::Miss { previous: self.protect_asset(asset) },
        }
    }

    /// Leases the chunk in slot `i`, and gives its address.
    fn lease_found(&mut self, i: usize) -> (p: usize)
        requires
            old(self).wf(),
            i < old(self)@.chunks.len(),
            old(self)@.chunks[i as int].backing != 0,
        ensures
            final(self).wf(),
            final(self)@ == old(self)@.hit(i as int),
            p == old(self)@.chunks[i as int].backing,
    {
        let t: u64 = self.bump();
        let mut s = self.chunks[i];
        s.leases = s.leases.wrapping_add(1);
        s.recency = t;
        self.put(i, s);
        s.backing
    }

    /// Protects what `asset` asked for while it allocates; gives the protection before.
    fn protect_asset(&mut self, asset: u32) -> (previous: u32)
        requires
            old(self).wf(),
            asset < old(self)@.assets.len(),
        ensures
            final(self).wf(),
            final(self)@ == (Model { protect: old(self)@.protection(asset), ..old(self)@ }),
            previous == old(self)@.protect,
    {
        let previous: u32 = self.protect;
        self.protect = if self.assets[asset as usize].self_protect {
            asset
        } else {
            NONE
        };
        assert(self@ =~= (Model { protect: old(self)@.protection(asset), ..old(self)@ }));
        previous
    }

    /// Ends a reservation that missed: restores the protection.
    pub fn end_reserve(&mut self, previous: u32)
        requires
            old(self).wf(),
        ensures
            final(self).wf(),
            final(self)@ == (Model { protect: previous, ..old(self)@ }),
    {
        self.protect = previous;
        assert(self@ =~= (Model { protect: previous, ..old(self)@ }));
    }

    /// Counts an allocation that failed.
    pub fn note_alloc_failure(&mut self)
        requires
            old(self).wf(),
        ensures
            final(self).wf(),
            final(self)@ == (Model {
                stats: Stats {
                    alloc_failures: old(self)@.stats.alloc_failures.wrapping_add(1),
                    ..old(self)@.stats
                },
                ..old(self)@
            }),
    {
        self.stats.alloc_failures = self.stats.alloc_failures.wrapping_add(1);
        assert(self@ =~= (Model { stats: self@.stats, ..old(self)@ }));
    }

    /// Takes the free slot `i` for chunk `index` of `asset` with memory `p`.
    fn take_slot(&mut self, i: usize, p: usize, asset: u32, index: u32, size: usize, ready: bool)
        requires
            old(self).wf(),
            i < old(self)@.chunks.len(),
            old(self)@.chunks[i as int].backing == 0,
            p != 0,
            asset < old(self)@.assets.len(),
        ensures
            final(self).wf(),
            final(self)@ == old(self)@.taken(i as int, p, asset, index, size, ready),
    {
        let recency: u64 = self.bump();
        self.alloc_gen = self.alloc_gen.wrapping_add(1);
        let generation: u32 = self.alloc_gen;
        let empty = ChunkSlot::empty();
        let ghost t = self@;
        assert(t =~= (Model {
            alloc_gen: old(self)@.alloc_gen.wrapping_add(1),
            ..old(self)@.ticked()
        }));
        self.place(
            i,
            ChunkSlot {
                backing: p,
                asset,
                index,
                leases: 1,
                ready,
                recency,
                size: size as u32,
                generation,
                ..empty
            },
        );
    }

    /// Takes the free slot `i` for an acquired chunk, leased and ready. Gives the
    /// materialize callback to run, if the asset has one.
    pub fn commit_acquire(
        &mut self,
        i: usize,
        p: usize,
        asset: u32,
        index: u32,
        size: usize,
    ) -> (r: Option<Build>)
        requires
            old(self).wf(),
            i < old(self)@.chunks.len(),
            old(self)@.chunks[i as int].backing == 0,
            p != 0,
            asset < old(self)@.assets.len(),
        ensures
            final(self).wf(),
            ({
                let a = old(self)@.assets[asset as int];
                let m = old(self)@.taken(i as int, p, asset, index, size, true);
                match a.source.materialize {
                    Some(callback) => {
                        &&& r == Some(build_of(a, callback, index, p))
                        &&& final(self)@ == (Model {
                            stats: Stats {
                                materializes: m.stats.materializes.wrapping_add(1),
                                ..m.stats
                            },
                            ..m
                        })
                    },
                    None => r is None && final(self)@ == m,
                }
            }),
    {
        let ghost m = self@.taken(i as int, p, asset, index, size, true);
        self.take_slot(i, p, asset, index, size, true);
        let a = self.assets[asset as usize];
        match a.source.materialize {
            Some(callback) => {
                self.stats.materializes = self.stats.materializes.wrapping_add(1);
                assert(self@ =~= (Model {
                    stats: Stats {
                        materializes: m.stats.materializes.wrapping_add(1),
                        ..m.stats
                    },
                    ..m
                }));
                Some(Build { callback, ctx: a.source.ctx, owner: a.owner, index, dest: p })
            },
            None => None,
        }
    }

    /// Takes the free slot `i` for a requested chunk, leased and not ready. Gives the
    /// construct callback to run.
    pub fn commit_request(
        &mut self,
        i: usize,
        p: usize,
        asset: u32,
        index: u32,
        size: usize,
    ) -> (r: Build)
        requires
            old(self).wf(),
            i < old(self)@.chunks.len(),
            old(self)@.chunks[i as int].backing == 0,
            p != 0,
            old(self)@.requestable(asset),
        ensures
            final(self).wf(),
            final(self)@ == old(self)@.taken(i as int, p, asset, index, size, false),
            r == build_of(
                old(self)@.assets[asset as int],
                old(self)@.assets[asset as int].source.construct->0,
                index,
                p,
            ),
    {
        self.take_slot(i, p, asset, index, size, false);
        let a = self.assets[asset as usize];
        let callback: usize = match a.source.construct {
            Some(c) => c,
            None => 0,
        };
        Build { callback, ctx: a.source.ctx, owner: a.owner, index, dest: p }
    }

    /// Takes the free slot `i` for the adopted block `p`, evictable and ready.
    pub fn commit_adopt(
        &mut self,
        i: usize,
        p: usize,
        size: usize,
        cost: u32,
        ctx: usize,
        on_evict: Option<usize>,
    )
        requires
            old(self).wf(),
            i < old(self)@.chunks.len(),
            old(self)@.chunks[i as int].backing == 0,
            p != 0,
        ensures
            final(self).wf(),
            final(self)@ == old(self)@.adopted(i as int, p, size, cost, ctx, on_evict),
    {
        let recency: u64 = self.bump();
        self.alloc_gen = self.alloc_gen.wrapping_add(1);
        self.stats.adopts = self.stats.adopts.wrapping_add(1);
        let generation: u32 = self.alloc_gen;
        let empty = ChunkSlot::empty();
        assert(self@ =~= (Model {
            alloc_gen: old(self)@.alloc_gen.wrapping_add(1),
            stats: Stats { adopts: old(self)@.stats.adopts.wrapping_add(1), ..old(self)@.stats },
            ..old(self)@.ticked()
        }));
        self.place(
            i,
            ChunkSlot {
                backing: p,
                ready: true,
                recency,
                size: size as u32,
                generation,
                cost,
                adopt_evict: on_evict,
                adopt_ctx: ctx,
                ..empty
            },
        );
    }

    /// Gives the occupied slot `i` up again: its chunk could not be built.
    pub fn roll_back(&mut self, i: usize)
        requires
            old(self).wf(),
            i < old(self)@.chunks.len(),
            old(self)@.chunks[i as int].backing != 0,
        ensures
            final(self).wf(),
            final(self)@ == old(self)@.cleared(i as int),
    {
        self.clear(i);
    }

    // ---- retiring an asset ----

    /// The asset to retire, as it stands; nothing if it is not in use.
    pub fn retire_begin(&self, asset: u32) -> (r: Option<AssetSlot>)
        requires
            self.wf(),
        ensures
            r == (if self@.usable(asset) { Some(self@.assets[asset as int]) } else { None }),
    {
        let ai: usize = asset as usize;
        if ai >= self.assets.len() || !self.assets[ai].in_use {
            return None;
        }
        Some(self.assets[ai])
    }

    /// Drops the next chunk of an asset that is being retired, leased or not. `a` is the
    /// asset as it stood; `from` is where the search starts, unless the asset is evicted
    /// tail first. Gives the slot, and what is left to be done.
    pub fn retire_next(&mut self, asset: u32, a: AssetSlot, from: usize) -> (r: Option<
        (usize, Evicted),
    >)
        requires
            old(self).wf(),
        ensures
            final(self).wf(),
            match r {
                Some((i, e)) => {
                    &&& old(self)@.next_retired(asset, a.evict_tail_first, from as int, i as int)
                    &&& e == (Evicted {
                        backing: old(self)@.chunks[i as int].backing,
                        asset,
                        notice: asset_notice(a, old(self)@.chunks[i as int].index),
                    })
                    &&& final(self)@ == old(self)@.cleared(i as int)
                },
                None => {
                    &&& forall|i: int|
                        (a.evict_tail_first || from <= i) && 0 <= i < old(self)@.chunks.len()
                            ==> !#[trigger] old(self)@.of_asset(i, asset)
                    &&& final(self)@ == old(self)@
                },
            },
    {
        let found: Option<usize> = if a.evict_tail_first {
            self.last_chunk_of(asset)
        } else {
            self.chunk_of_from(asset, from)
        };
        match found {
            Some(i) => {
                let s = self.chunks[i];
                self.clear(i);
                let notice = owner_notice(&a, s.index);
                Some((i, Evicted { backing: s.backing, asset, notice }))
            },
            None => None,
        }
    }

    /// The chunk of `asset` of the highest index; of equal indices the last slot.
    fn last_chunk_of(&self, asset: u32) -> (r: Option<usize>)
        requires
            self.wf(),
        ensures
            match r {
                Some(i) => self@.next_retired(asset, true, 0, i as int),
                None => forall|i: int|
                    0 <= i < self@.chunks.len() ==> !#[trigger] self@.of_asset(i, asset),
            },
    {
        let mut hi: Option<usize> = None;
        let mut hidx: u32 = 0;
        let mut i: usize = 0;
        while i < self.chunks.len()
            invariant
                i <= self@.chunks.len(),
                hi is None ==> forall|j: int| 0 <= j < i ==> !#[trigger] self@.of_asset(j, asset),
                hi is Some ==> {
                    &&& hi->0 < i
                    &&& self@.of_asset(hi->0 as int, asset)
                    &&& hidx == self@.chunks[hi->0 as int].index
                    &&& forall|j: int|
                        0 <= j < i && #[trigger] self@.of_asset(j, asset) ==> {
                            &&& self@.chunks[j].index <= hidx
                            &&& self@.chunks[j].index == hidx ==> j <= hi->0
                        }
                },
            decreases self@.chunks.len() - i,
        {
            let s = self.chunks[i];
            if s.backing != 0 && s.asset == asset && (hi.is_none() || s.index >= hidx) {
                hi = Some(i);
                hidx = s.index;
            }
            i = i + 1;
        }
        hi
    }

    /// The first chunk of `asset` from slot `from` on.
    fn chunk_of_from(&self, asset: u32, from: usize) -> (r: Option<usize>)
        requires
            self.wf(),
        ensures
            match r {
                Some(i) => self@.next_retired(asset, false, from as int, i as int),
                None => forall|i: int|
                    from <= i < self@.chunks.len() ==> !#[trigger] self@.of_asset(i, asset),
            },
    {
        let mut i: usize = from;
        while i < self.chunks.len()
            invariant
                from <= i,
                i <= self@.chunks.len() || i == from,
                forall|j: int| from <= j < i ==> !#[trigger] self@.of_asset(j, asset),
            decreases self@.chunks.len() - i,
        {
            let s = self.chunks[i];
            if s.backing != 0 && s.asset == asset {
                return Some(i);
            }
            i = i + 1;
        }
        None
    }

    /// Frees the asset's slot for reuse.
    pub fn retire_end(&mut self, asset: u32)
        requires
            old(self).wf(),
            asset < old(self)@.assets.len(),
        ensures
            final(self).wf(),
            final(self)@ == old(self)@.with_asset(asset, AssetSlot::spec_empty()),
    {
        self.put_asset(asset as usize, AssetSlot::empty());
    }

    // ---- steps on one slot ----

    /// Writes slot `i`, which keeps its address and key.
    fn put(&mut self, i: usize, c: ChunkSlot)
        requires
            old(self).wf(),
            i < old(self)@.chunks.len(),
            c.backing == old(self)@.chunks[i as int].backing,
            c.asset == old(self)@.chunks[i as int].asset,
            c.index == old(self)@.chunks[i as int].index,
            c.backing == 0 ==> c == ChunkSlot::spec_empty(),
        ensures
            final(self).wf(),
            final(self)@ == old(self)@.with_chunk(i as int, c),
    {
        self.chunks.set(i, c);
        proof {
            let m = old(self)@;
            let n = m.with_chunk(i as int, c);
            assert(self@ =~= n);
            assert forall|j: int| 0 <= j < n.chunks.len() implies {
                &&& (#[trigger] n.chunks[j]).backing == m.chunks[j].backing
                &&& n.chunks[j].asset == m.chunks[j].asset
                &&& n.chunks[j].index == m.chunks[j].index
            } by {}
            assert forall|b: int, j: int|
                0 <= b < n.chains.len() && #[trigger] n.chains[b].contains(j) implies (0 <= j
                < n.chunks.len()) by {
                let k = choose|k: int| 0 <= k < m.chains[b].len() && m.chains[b][k] == j;
                assert(0 <= m.chains[b][k] < m.chunks.len());
            }
        }
    }

    /// Takes the free slot `i` for chunk `c`: writes the slot and links its key, in
    /// one step, so that the two never disagree. An adopted chunk has no key to
    /// link.
    fn place(&mut self, i: usize, c: ChunkSlot)
        requires
            old(self).wf(),
            i < old(self)@.chunks.len(),
            old(self)@.chunks[i as int].backing == 0,
            c.backing != 0,
            c.asset == NONE || c.asset < old(self)@.assets.len(),
        ensures
            final(self).wf(),
            final(self)@ == old(self)@.placed(i as int, c),
    {
        let ghost m = self@;
        if c.asset != NONE {
            let b: usize = self.index.bucket_of(c.asset, c.index);
            proof {
                assert forall|d: int| 0 <= d < m.chains.len() implies !(
                #[trigger] m.chains[d]).contains(i as int) by {
                    if m.chains[d].contains(i as int) {
                        assert(m.chunks[i as int].backing != 0);
                    }
                }
            }
            self.index.insert(i, b);
        }
        self.chunks.set(i, c);
        proof {
            let n = m.placed(i as int, c);
            assert(self@ =~= n);
            self.index.lemma_shape();
            lemma_placed(m, i as int, c);
        }
    }

    /// Frees the occupied slot `i`: unlinks its key and empties the slot.
    fn clear(&mut self, i: usize)
        requires
            old(self).wf(),
            i < old(self)@.chunks.len(),
            old(self)@.chunks[i as int].backing != 0,
        ensures
            final(self).wf(),
            final(self)@ == old(self)@.cleared(i as int),
    {
        let ghost m = self@;
        let c = self.chunks[i];
        if c.asset != NONE {
            let b: usize = self.index.bucket_of(c.asset, c.index);
            proof {
                assert(m.keyed(i as int));
                assert(m.home(i as int) == b);
            }
            self.index.remove(i, b);
        }
        self.chunks.set(i, ChunkSlot::empty());
        proof {
            let n = m.cleared(i as int);
            assert(self@ =~= n);
            self.index.lemma_shape();
            lemma_cleared(m, i as int);
        }
    }
}

/// Who an asset tells of the eviction of its chunk `index`.
fn owner_notice(a: &AssetSlot, index: u32) -> (r: Notice)
    ensures
        r == asset_notice(*a, index),
{
    match a.source.on_evict {
        Some(callback) => Notice::Owner { callback, ctx: a.source.ctx, owner: a.owner, index },
        None => Notice::Silent,
    }
}

/// What a callback of asset `a` is given to build chunk `index` in the memory `p`.
pub open spec fn build_of(a: AssetSlot, callback: usize, index: u32, p: usize) -> Build {
    Build { callback, ctx: a.source.ctx, owner: a.owner, index, dest: p }
}

/// How a reservation of `(asset, index)` starts in `m` and leaves `n`: refused with
/// nothing changed, or counted as `stats` says and looked up; a resident chunk is
/// leased, and otherwise the asset's protection is put in force.
pub open spec fn begins(
    m: Model,
    allowed: bool,
    stats: Stats,
    asset: u32,
    index: u32,
    r: Begin,
    n: Model,
) -> bool {
    if !allowed {
        r == Begin::Refused && n == m
    } else {
        let c = (Model { stats, ..m }).searched(asset, index);
        match m.resident(asset, index) {
            Some(i) => r == Begin::Hit(m.chunks[i].backing) && n == c.hit(i),
            None => {
                &&& r == (Begin::Miss { previous: m.protect })
                &&& n == (Model { protect: m.protection(asset), ..c })
            },
        }
    }
}

/// A found slot as a number.
pub open spec fn slot_number(r: Option<usize>) -> Option<int> {
    match r {
        Some(i) => Some(i as int),
        None => None,
    }
}

/// Placing a chunk keeps the index consistent.
proof fn lemma_placed(m: Model, i: int, c: ChunkSlot)
    requires
        m.consistent(),
        0 <= i < m.chunks.len(),
        m.chunks[i].backing == 0,
        c.backing != 0,
        c.asset == NONE || c.asset < m.assets.len(),
        chains_ok(m.placed(i, c).chains, m.chunks.len()),
        0 <= m.bucket(c.asset, c.index) < m.chains.len() || c.asset == NONE,
    ensures
        m.placed(i, c).consistent(),
{
    let n = m.placed(i, c);
    let cb = m.bucket(c.asset, c.index);
    assert forall|b: int, j: int|
        0 <= b < n.chains.len() && #[trigger] n.chains[b].contains(j) implies n.keyed(j) && n.home(j)
        == b by {
        let k = choose|k: int| 0 <= k < n.chains[b].len() && n.chains[b][k] == j;
        if c.asset != NONE && b == cb {
            if k > 0 {
                assert(m.chains[b][k - 1] == j);
                assert(m.chains[b].contains(j));
            }
        } else {
            assert(m.chains[b].contains(j));
        }
        assert(0 <= n.chains[b][k] < n.chunks.len());
    }
    assert forall|j: int| 0 <= j < n.chunks.len() && (#[trigger] n.chunks[j]).keyed() implies 0
        <= n.home(j) < n.chains.len() && n.chains[n.home(j)].contains(j) by {
        if j == i {
            assert(n.chains[cb][0] == i);
        } else {
            assert(m.chunks[j].keyed());
            let h = m.home(j);
            assert(m.chains[h].contains(j));
            let k = choose|k: int| 0 <= k < m.chains[h].len() && m.chains[h][k] == j;
            if c.asset != NONE && h == cb {
                assert(n.chains[h][k + 1] == j);
            } else {
                assert(n.chains[h][k] == j);
            }
        }
    }
}

/// Clearing a slot keeps the index consistent.
proof fn lemma_cleared(m: Model, i: int)
    requires
        m.consistent(),
        0 <= i < m.chunks.len(),
        m.chunks[i].backing != 0,
        chains_ok(m.cleared(i).chains, m.chunks.len()),
    ensures
        m.cleared(i).consistent(),
{
    let n = m.cleared(i);
    let h = m.home(i);
    if m.chunks[i].asset != NONE {
        assert(m.chunks[i].keyed());
        assert(m.chains[h].contains(i));
        let p = m.chains[h].index_of(i);
        assert(m.chains[h][p] == i);
        let nc = m.chains[h].remove(p);
        assert(n.chains[h] == nc);
        assert forall|j: int| j != i && #[trigger] m.chains[h].contains(j) implies nc.contains(j) by {
            let k = choose|k: int| 0 <= k < m.chains[h].len() && m.chains[h][k] == j;
            if k < p {
                assert(nc[k] == j);
            } else {
                assert(nc[k - 1] == j);
            }
        }
        assert forall|j: int| #[trigger] nc.contains(j) implies m.chains[h].contains(j) && j != i by {
            let k = choose|k: int| 0 <= k < nc.len() && nc[k] == j;
            let o = if k < p { k } else { k + 1 };
            assert(m.chains[h][o] == j);
            assert(m.chains[h].no_duplicates());
        }
    }
    assert forall|b: int, j: int|
        0 <= b < n.chains.len() && #[trigger] n.chains[b].contains(j) implies n.keyed(j) && n.home(j)
        == b by {
        assert(m.chains[b].contains(j));
    }
    assert forall|j: int| 0 <= j < n.chunks.len() && (#[trigger] n.chunks[j]).keyed() implies 0
        <= n.home(j) < n.chains.len() && n.chains[n.home(j)].contains(j) by {
        assert(m.chunks[j].keyed());
        assert(m.chains[m.home(j)].contains(j));
    }
}

} // verus!
