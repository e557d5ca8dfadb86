//! The manager's records: assets, chunk slots, counters and what an eviction
//! leaves to be done.
//!
//! Memory addresses are plain integers, with 0 for "no memory": nothing here reads
//! the memory behind one. Callbacks and their contexts are opaque tokens, which the
//! embedding program resolves.
use crate::resource::index::NONE;
use vstd::prelude::*;

verus! {

/// Invalid chunk-slot index: what `slot_of` gives for an address that is not
/// resident.
pub const NO_SLOT: u32 = 0xFFFF_FFFF;

/// Chunks of the asset are allocated from the heap.
pub const BACKING_HEAP: u32 = 0;

/// Chunks of the asset are uniform and come from the slab.
pub const BACKING_SLAB: u32 = 1;

/// Number of cost classes that evictions are counted by.
pub const COST_BUCKETS: usize = 8;

/// How an asset's chunks are rebuilt.
#[derive(Clone, Copy, Debug, PartialEq, Eq)]
pub struct Source {
    /// Rebuilds a chunk into memory, with I/O.
    pub materialize: Option<usize>,
    /// Tells the owner that a chunk is being evicted.
    pub on_evict: Option<usize>,
    /// Initialises a chunk without I/O. Without it the asset is not requestable.
    pub construct: Option<usize>,
    pub ctx: usize,
    pub cost: u32,
    /// `BACKING_HEAP` or `BACKING_SLAB`.
    pub backing: u32,
}

/// One entry of the asset table.
#[derive(Clone, Copy, Debug, PartialEq, Eq)]
pub struct AssetSlot {
    pub in_use: bool,
    pub owner: usize,
    pub source: Source,
    pub soft_refs: u32,
    /// Only the resident chunk of the highest index may be evicted.
    pub evict_tail_first: bool,
    /// The asset's own chunks are not evicted while it allocates one.
    pub self_protect: bool,
}

impl AssetSlot {
    /// The free asset slot.
    pub open spec fn spec_empty() -> AssetSlot {
        AssetSlot {
            in_use: false,
            owner: 0,
            source: Source {
                materialize: None,
                on_evict: None,
                construct: None,
                ctx: 0,
                cost: 0,
                backing: BACKING_HEAP,
            },
            soft_refs: 0,
            evict_tail_first: false,
            self_protect: false,
        }
    }

    /// The free asset slot.
    pub fn empty() -> (r: AssetSlot)
        ensures
            r == AssetSlot::spec_empty(),
    {
        AssetSlot {
            in_use: false,
            owner: 0,
            source: Source {
                materialize: None,
                on_evict: None,
                construct: None,
                ctx: 0,
                cost: 0,
                backing: BACKING_HEAP,
            },
            soft_refs: 0,
            evict_tail_first: false,
            self_protect: false,
        }
    }
}

/// One entry of the chunk table.
#[derive(Clone, Copy, Debug, PartialEq, Eq)]
pub struct ChunkSlot {
    /// The chunk's memory; 0 means that the slot is free.
    pub backing: usize,
    /// The asset, or `NONE` for an adopted chunk.
    pub asset: u32,
    /// The chunk's index within its asset.
    pub index: u32,
    /// Hard leases; a leased chunk is never evicted.
    pub leases: u32,
    /// Unsaved, so never evicted.
    pub dirty: bool,
    /// The data is there.
    pub ready: bool,
    pub recency: u64,
    /// Bytes that evicting the chunk gives back.
    pub size: u32,
    /// Stamped each time the slot takes a fresh backing.
    pub generation: u32,
    /// Waiting to be loaded.
    pub queued: bool,
    /// Lower is more urgent.
    pub queue_priority: u32,
    /// One of the leases belongs to the load queue.
    pub queue_leased: bool,
    /// Cost of an adopted chunk.
    pub cost: u32,
    /// Evict callback of an adopted chunk.
    pub adopt_evict: Option<usize>,
    pub adopt_ctx: usize,
}

impl ChunkSlot {
    /// The free chunk slot.
    pub open spec fn spec_empty() -> ChunkSlot {
        ChunkSlot {
            backing: 0,
            asset: NONE,
            index: 0,
            leases: 0,
            dirty: false,
            ready: false,
            recency: 0,
            size: 0,
            generation: 0,
            queued: false,
            queue_priority: 0,
            queue_leased: false,
            cost: 0,
            adopt_evict: None,
            adopt_ctx: 0,
        }
    }

    /// The free chunk slot.
    pub fn empty() -> (r: ChunkSlot)
        ensures
            r == ChunkSlot::spec_empty(),
    {
        ChunkSlot {
            backing: 0,
            asset: NONE,
            index: 0,
            leases: 0,
            dirty: false,
            ready: false,
            recency: 0,
            size: 0,
            generation: 0,
            queued: false,
            queue_priority: 0,
            queue_leased: false,
            cost: 0,
            adopt_evict: None,
            adopt_ctx: 0,
        }
    }

    /// The slot holds a chunk of an asset.
    pub open spec fn keyed(self) -> bool {
        self.backing != 0 && self.asset != NONE
    }

    /// The slot is resident under `(asset, index)`.
    pub open spec fn holds(self, asset: u32, index: u32) -> bool {
        self.backing != 0 && self.asset == asset && self.index == index
    }

    /// The chunk may be evicted: occupied, unleased and saved.
    pub open spec fn evictable(self) -> bool {
        self.backing != 0 && self.leases == 0 && !self.dirty
    }

    /// The loader may fill the chunk: queued, occupied and leased.
    pub open spec fn servable(self) -> bool {
        self.queued && self.backing != 0 && self.leases > 0
    }

    /// The chunk with one more lease, used at `recency`.
    pub open spec fn leased(self, recency: u64) -> ChunkSlot {
        ChunkSlot { leases: self.leases.wrapping_add(1), recency, ..self }
    }

    /// The chunk with one lease fewer, none becoming none.
    pub open spec fn released(self) -> ChunkSlot {
        ChunkSlot { leases: (if self.leases > 0 { self.leases - 1 } else { 0 }) as u32, ..self }
    }

    /// The chunk without the load queue's own lease.
    pub open spec fn queue_released(self) -> ChunkSlot {
        if self.queue_leased {
            ChunkSlot { queue_leased: false, ..self.released() }
        } else {
            self
        }
    }
}

/// Cumulative counters; they never affect behaviour, and they wrap.
#[derive(Clone, Copy, Debug, PartialEq, Eq)]
pub struct Stats {
    pub acquires: u64,
    /// Acquires that found the chunk resident.
    pub acquire_hits: u64,
    pub requests: u64,
    pub materializes: u64,
    pub evictions: u64,
    pub alloc_failures: u64,
    pub adopts: u64,
    pub evictions_by_cost: [u64; 8],
    /// Key lookups, and the slots they visited.
    pub scan_resident_calls: u64,
    pub scan_resident_slots: u64,
    /// Address lookups, and the slots they visited.
    pub scan_ptr_calls: u64,
    pub scan_ptr_slots: u64,
    /// Searches for a free slot, and the slots they visited.
    pub scan_free_calls: u64,
    pub scan_free_slots: u64,
    /// Searches for a victim, and the slots they visited.
    pub scan_evict_calls: u64,
    pub scan_evict_slots: u64,
}

impl Stats {
    pub open spec fn zero(self) -> bool {
        &&& self.acquires == 0
        &&& self.acquire_hits == 0
        &&& self.requests == 0
        &&& self.materializes == 0
        &&& self.evictions == 0
        &&& self.alloc_failures == 0
        &&& self.adopts == 0
        &&& self.evictions_by_cost@ == Seq::new(8, |i: int| 0u64)
        &&& self.scan_resident_calls == 0
        &&& self.scan_resident_slots == 0
        &&& self.scan_ptr_calls == 0
        &&& self.scan_ptr_slots == 0
        &&& self.scan_free_calls == 0
        &&& self.scan_free_slots == 0
        &&& self.scan_evict_calls == 0
        &&& self.scan_evict_slots == 0
    }

    pub open spec fn scanned_resident(self, slots: nat) -> Stats {
        Stats {
            scan_resident_calls: self.scan_resident_calls.wrapping_add(1),
            scan_resident_slots: self.scan_resident_slots.wrapping_add(slots as u64),
            ..self
        }
    }

    pub open spec fn scanned_ptr(self, slots: nat) -> Stats {
        Stats {
            scan_ptr_calls: self.scan_ptr_calls.wrapping_add(1),
            scan_ptr_slots: self.scan_ptr_slots.wrapping_add(slots as u64),
            ..self
        }
    }

    pub open spec fn scanned_free(self, slots: nat) -> Stats {
        Stats {
            scan_free_calls: self.scan_free_calls.wrapping_add(1),
            scan_free_slots: self.scan_free_slots.wrapping_add(slots as u64),
            ..self
        }
    }

    pub open spec fn scanned_evict(self, slots: nat) -> Stats {
        Stats {
            scan_evict_calls: self.scan_evict_calls.wrapping_add(1),
            scan_evict_slots: self.scan_evict_slots.wrapping_add(slots as u64),
            ..self
        }
    }

    /// One more eviction, of a chunk of that cost.
    pub open spec fn evicted(self, cost: u32) -> Stats {
        let b = cost_bucket(cost);
        Stats {
            evictions: self.evictions.wrapping_add(1),
            evictions_by_cost: vstd::array::spec_array_update(
                self.evictions_by_cost,
                b,
                self.evictions_by_cost[b].wrapping_add(1),
            ),
            ..self
        }
    }
}

/// The class that evictions of that cost are counted in.
pub open spec fn cost_bucket(cost: u32) -> int {
    if cost < COST_BUCKETS {
        cost as int
    } else {
        COST_BUCKETS - 1
    }
}

impl Default for Stats {
    fn default() -> (r: Stats)
        ensures
            r.zero(),
    {
        let r = Stats {
            acquires: 0,
            acquire_hits: 0,
            requests: 0,
            materializes: 0,
            evictions: 0,
            alloc_failures: 0,
            adopts: 0,
            evictions_by_cost: [0, 0, 0, 0, 0, 0, 0, 0],
            scan_resident_calls: 0,
            scan_resident_slots: 0,
            scan_ptr_calls: 0,
            scan_ptr_slots: 0,
            scan_free_calls: 0,
            scan_free_slots: 0,
            scan_evict_calls: 0,
            scan_evict_slots: 0,
        };
        assert(r.evictions_by_cost@ =~= Seq::new(8, |i: int| 0u64));
        r
    }
}

/// Who is told that a chunk was evicted.
#[derive(Clone, Copy, Debug, PartialEq, Eq)]
pub enum Notice {
    /// Nobody.
    Silent,
    /// The asset's owner, through its evict callback.
    Owner { callback: usize, ctx: usize, owner: usize, index: u32 },
    /// The owner of an adopted chunk, with the chunk's address.
    Adopter { callback: usize, ctx: usize, backing: usize },
}

/// A chunk that has left the table. What is still to be done: give the notice, then
/// free `backing` as `slab_for(asset)` says.
#[derive(Clone, Copy, Debug, PartialEq, Eq)]
pub struct Evicted {
    pub backing: usize,
    pub asset: u32,
    pub notice: Notice,
}

/// How a reservation starts.
#[derive(Clone, Copy, Debug, PartialEq, Eq)]
pub enum Begin {
    /// The asset does not allow it.
    Refused,
    /// The chunk is resident; it has been leased.
    Hit(usize),
    /// The chunk must be allocated. The asset may have been protected; `previous` is
    /// the protection to restore when the reservation ends.
    Miss { previous: u32 },
}

/// A chunk that has its slot and lease and is to be built by a callback.
#[derive(Clone, Copy, Debug, PartialEq, Eq)]
pub struct Build {
    pub callback: usize,
    pub ctx: usize,
    pub owner: usize,
    pub index: u32,
    pub dest: usize,
}

/// What a chunk's eviction rank is computed from.
#[derive(Clone, Copy, Debug, PartialEq, Eq)]
pub struct RankInput {
    pub soft_refs: u32,
    pub cost: u32,
    pub size: u32,
    pub recency: u64,
}

/// An eviction rank; the lowest, in lexicographic order, is evicted first.
pub type Rank = (u8, u64, u64);

/// `a` comes before `b`.
pub open spec fn rank_before(a: Rank, b: Rank) -> bool {
    a.0 < b.0 || (a.0 == b.0 && (a.1 < b.1 || (a.1 == b.1 && a.2 < b.2)))
}

/// Whether `a` comes before `b`.
pub fn ranks_before(a: Rank, b: Rank) -> (r: bool)
    ensures
        r == rank_before(a, b),
{
    a.0 < b.0 || (a.0 == b.0 && (a.1 < b.1 || (a.1 == b.1 && a.2 < b.2)))
}

} // verus!
