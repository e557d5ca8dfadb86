//! The cache as other languages call it: a handle may be missing, and then nothing happens.
use crate::resource::facade::{
    acquire_outcome, adopted_in, after_evict_scan, full, request_outcome, reserved, retired,
    retired_in_order, Backend, Resource,
};
use crate::resource::index::NONE;
use crate::resource::laws::lemma_keys_stay;
use crate::resource::model::Model;
use crate::resource::trace::{
    acquire_asks, adopts, evict_step, frees, request_asks, retires, since, Event,
};
use crate::resource::types::{AssetSlot, ChunkSlot, Source, Stats, NO_SLOT};
use vstd::prelude::*;

verus! {

/// The cache, under the name that other languages have for it.
pub type DelugeResource<B> = Resource<B>;

/// What being in order means of the manager behind a handle.
proof fn lemma_in_order<B: Backend>(h: Resource<B>)
    ensures
        h.wf() == (h.mgr.wf() && h@.unique_keys()),
        h.wf() ==> h@.consistent(),
{
    h.lemma_wf();
}

/// A cache that evicts when an allocation fails. Nothing without a backend or if a capacity
/// is zero.
pub fn deluge_resource_create<B: Backend>(
    backend: Option<B>,
    asset_cap: usize,
    chunk_cap: usize,
) -> (r: Option<Resource<B>>)
    requires
        asset_cap <= NONE,
        chunk_cap <= 0x8000_0000,
    ensures
        r is None <==> backend is None || asset_cap == 0 || chunk_cap == 0,
        r is Some ==> created(r->0, backend->0, asset_cap, chunk_cap, true),
{
    match backend {
        Some(b) => Resource::create(b, asset_cap, chunk_cap, true),
        None => None,
    }
}

/// A cache that leaves evicting to somebody else, who calls `deluge_resource_try_evict`.
/// Nothing without a backend or if a capacity is zero.
pub fn deluge_resource_create_unhooked<B: Backend>(
    backend: Option<B>,
    asset_cap: usize,
    chunk_cap: usize,
) -> (r: Option<Resource<B>>)
    requires
        asset_cap <= NONE,
        chunk_cap <= 0x8000_0000,
    ensures
        r is None <==> backend is None || asset_cap == 0 || chunk_cap == 0,
        r is Some ==> created(r->0, backend->0, asset_cap, chunk_cap, false),
{
    match backend {
        Some(b) => Resource::create(b, asset_cap, chunk_cap, false),
        None => None,
    }
}

/// A cache as it is created: empty.
pub open spec fn created<B: Backend>(
    s: Resource<B>,
    backend: B,
    asset_cap: usize,
    chunk_cap: usize,
    reclaim: bool,
) -> bool {
    &&& s.wf()
    &&& s.reclaim == reclaim
    &&& s.backend == backend
    &&& s.trace() == Seq::<Event>::empty()
    &&& s@.slab == 0
    &&& s@.assets == Seq::new(asset_cap as nat, |i: int| AssetSlot::spec_empty())
    &&& s@.chunks == Seq::new(chunk_cap as nat, |i: int| ChunkSlot::spec_empty())
    &&& s@.tick == 0
    &&& s@.protect == NONE
    &&& s@.stats.zero()
    &&& s@.alloc_gen == 0
}

/// Evicts the lowest-value chunk that may be evicted; says whether there was one.
pub fn deluge_resource_try_evict<B: Backend>(
    handle: Option<&mut DelugeResource<B>>,
) -> (r: bool)
    requires
        handle is Some ==> handle->0.wf(),
    ensures
        match handle {
            Some(h) => {
                &&& final(h).wf()
                &&& final(h).reclaim == h.reclaim
                &&& final(h).follows(*h)
                &&& r <==> exists|i: int| 0 <= i < h@.chunks.len() && #[trigger] h@.candidate(i)
                &&& !r ==> final(h)@ == after_evict_scan(h@) && final(h).trace() == h.trace()
                &&& r ==> evict_step(h@, since(h.trace(), final(h).trace()), final(h)@)
            },
            None => !r,
        },
{
    match handle {
        Some(h) => {
            h.evict_lowest()
        },
        None => false,
    }
}

/// Sets the slab that backs `BACKING_SLAB` assets.
pub fn deluge_resource_set_slab<B: Backend>(
    handle: Option<&mut DelugeResource<B>>,
    slab: usize,
)
    requires
        handle is Some ==> handle->0.wf(),
    ensures
        match handle {
            Some(h) => {
                &&& final(h).wf()
                &&& final(h).reclaim == h.reclaim
                &&& final(h).backend == h.backend
                &&& final(h).trace() == h.trace()
                &&& final(h)@ == (Model { slab, ..h@ })
            },
            None => true,
        },
{
    match handle {
        Some(h) => {
            let ghost m = h@;
            proof {
                lemma_in_order(*h);
            }
            h.mgr.set_slab(slab);
            proof {
                lemma_in_order(*h);
                lemma_keys_stay(m, h@);
            }
        },
        None => {},
    }
}

/// Defines an asset that cannot be requested yet; gives its id, or `NONE`.
pub fn deluge_resource_define_asset<B: Backend>(
    handle: Option<&mut DelugeResource<B>>,
    owner: usize,
    materialize: Option<usize>,
    on_evict: Option<usize>,
    ctx: usize,
    cost: u32,
    backing: u32,
) -> (r: u32)
    requires
        handle is Some ==> handle->0.wf(),
    ensures
        match handle {
            Some(h) => {
                &&& final(h).wf()
                &&& final(h).reclaim == h.reclaim
                &&& final(h).backend == h.backend
                &&& final(h).trace() == h.trace()
                &&& match h@.free_asset() {
                    Some(i) => {
                        &&& r == i
                        &&& r != NONE
                        &&& final(h)@ == h@.with_asset(
                            r,
                            AssetSlot {
                                in_use: true,
                                owner,
                                source: Source {
                                    materialize,
                                    on_evict,
                                    construct: None,
                                    ctx,
                                    cost,
                                    backing,
                                },
                                soft_refs: 0,
                                ..h@.assets[i]
                            },
                        )
                    },
                    None => r == NONE && final(h)@ == h@,
                }
            },
            None => r == NONE,
        },
{
    match handle {
        Some(h) => {
            let ghost m = h@;
            proof {
                lemma_in_order(*h);
            }
            let r: u32 = h.mgr.define_asset(
                owner,
                Source { materialize, on_evict, construct: None, ctx, cost, backing },
            );
            proof {
                lemma_in_order(*h);
                lemma_keys_stay(m, h@);
            }
            r
        },
        None => NONE,
    }
}

/// Retires an asset and drops its chunks.
pub fn deluge_resource_release_asset<B: Backend>(
    handle: Option<&mut DelugeResource<B>>,
    asset: u32,
)
    requires
        handle is Some ==> handle->0.wf(),
    ensures
        match handle {
            Some(h) => {
                &&& final(h).wf()
                &&& final(h).reclaim == h.reclaim
                &&& final(h).follows(*h)
                &&& !h@.usable(asset) ==> final(h)@ == h@
                &&& h@.usable(asset) ==> retired(h@, asset, final(h)@)
                &&& exists|order: Seq<usize>|
                    {
                        &&& #[trigger] retires(
                            h@,
                            asset,
                            order,
                            since(h.trace(), final(h).trace()),
                        )
                        &&& h@.usable(asset) ==> retired_in_order(h@, asset, order)
                        &&& !h@.usable(asset) ==> order.len() == 0
                        &&& forall|j: int|
                            0 <= j < h@.chunks.len() && h@.usable(asset) && #[trigger] h@.of_asset(
                                j,
                                asset,
                            ) ==> order.contains(j as usize)
                    }
            },
            None => true,
        },
{
    match handle {
        Some(h) => {
            let ghost m = h@;
            let ghost t = h.trace();
            let order = h.release_asset(asset);
            assert(retires(m, asset, order@, since(t, h.trace())));
        },
        None => {},
    }
}

/// Attaches or clears the callback that makes an asset requestable.
pub fn deluge_resource_set_construct<B: Backend>(
    handle: Option<&mut DelugeResource<B>>,
    asset: u32,
    construct: Option<usize>,
)
    requires
        handle is Some ==> handle->0.wf(),
    ensures
        match handle {
            Some(h) => {
                &&& final(h).wf()
                &&& final(h).reclaim == h.reclaim
                &&& final(h).backend == h.backend
                &&& final(h).trace() == h.trace()
                &&& final(h)@ == (if asset < h@.assets.len() {
                    let a = h@.assets[asset as int];
                    h@.with_asset(asset, AssetSlot { source: Source { construct, ..a.source }, ..a })
                } else {
                    h@
                })
            },
            None => true,
        },
{
    match handle {
        Some(h) => {
            let ghost m = h@;
            proof {
                lemma_in_order(*h);
            }
            h.mgr.set_construct(asset, construct);
            proof {
                lemma_in_order(*h);
                lemma_keys_stay(m, h@);
            }
        },
        None => {},
    }
}

/// Says whether only the last resident chunk of an asset may be evicted.
pub fn deluge_resource_set_evict_tail_first<B: Backend>(
    handle: Option<&mut DelugeResource<B>>,
    asset: u32,
    on: bool,
)
    requires
        handle is Some ==> handle->0.wf(),
    ensures
        match handle {
            Some(h) => {
                &&& final(h).wf()
                &&& final(h).reclaim == h.reclaim
                &&& final(h).backend == h.backend
                &&& final(h).trace() == h.trace()
                &&& final(h)@ == (if asset < h@.assets.len() {
                    let a = h@.assets[asset as int];
                    h@.with_asset(asset, AssetSlot { evict_tail_first: on, ..a })
                } else {
                    h@
                })
            },
            None => true,
        },
{
    match handle {
        Some(h) => {
            let ghost m = h@;
            proof {
                lemma_in_order(*h);
            }
            h.mgr.set_evict_tail_first(asset, on);
            proof {
                lemma_in_order(*h);
                lemma_keys_stay(m, h@);
            }
        },
        None => {},
    }
}

/// Says whether an asset's chunks are safe while it allocates.
pub fn deluge_resource_set_self_protect<B: Backend>(
    handle: Option<&mut DelugeResource<B>>,
    asset: u32,
    on: bool,
)
    requires
        handle is Some ==> handle->0.wf(),
    ensures
        match handle {
            Some(h) => {
                &&& final(h).wf()
                &&& final(h).reclaim == h.reclaim
                &&& final(h).backend == h.backend
                &&& final(h).trace() == h.trace()
                &&& final(h)@ == (if asset < h@.assets.len() {
                    let a = h@.assets[asset as int];
                    h@.with_asset(asset, AssetSlot { self_protect: on, ..a })
                } else {
                    h@
                })
            },
            None => true,
        },
{
    match handle {
        Some(h) => {
            let ghost m = h@;
            proof {
                lemma_in_order(*h);
            }
            h.mgr.set_self_protect(asset, on);
            proof {
                lemma_in_order(*h);
                lemma_keys_stay(m, h@);
            }
        },
        None => {},
    }
}

/// Reserves a chunk under a lease without loading it; gives its address, or 0.
pub fn deluge_resource_request<B: Backend>(
    handle: Option<&mut DelugeResource<B>>,
    asset: u32,
    index: u32,
    size: usize,
) -> (r: usize)
    requires
        handle is Some ==> handle->0.wf(),
    ensures
        match handle {
            Some(h) => {
                &&& final(h).wf()
                &&& final(h).reclaim == h.reclaim
                &&& final(h).follows(*h)
                &&& request_outcome(h@, asset, index, size, r, final(h)@)
                &&& request_asks(
                    h@,
                    asset,
                    index,
                    size,
                    h.reclaim,
                    since(h.trace(), final(h).trace()),
                    r,
                    final(h)@,
                )
            },
            None => r == 0,
        },
{
    match handle {
        Some(h) => {
            h.request_ptr(asset, index, size)
        },
        None => 0,
    }
}

/// Acquires a chunk under a lease, rebuilding it if need be; gives its address, or 0.
pub fn deluge_resource_acquire<B: Backend>(
    handle: Option<&mut DelugeResource<B>>,
    asset: u32,
    index: u32,
    size: usize,
) -> (r: usize)
    requires
        handle is Some ==> handle->0.wf(),
    ensures
        match handle {
            Some(h) => {
                &&& final(h).wf()
                &&& final(h).reclaim == h.reclaim
                &&& final(h).follows(*h)
                &&& acquire_outcome(h@, asset, index, size, r, final(h)@)
                &&& acquire_asks(
                    h@,
                    asset,
                    index,
                    size,
                    h.reclaim,
                    since(h.trace(), final(h).trace()),
                    r,
                    final(h)@,
                )
            },
            None => r == 0,
        },
{
    match handle {
        Some(h) => {
            h.acquire(asset, index, size)
        },
        None => 0,
    }
}

/// Leases a chunk that is resident and ready; gives its address, or 0.
pub fn deluge_resource_try_acquire<B: Backend>(
    handle: Option<&mut DelugeResource<B>>,
    asset: u32,
    index: u32,
) -> (r: usize)
    requires
        handle is Some ==> handle->0.wf(),
    ensures
        match handle {
            Some(h) => {
                &&& final(h).wf()
                &&& final(h).reclaim == h.reclaim
                &&& final(h).backend == h.backend
                &&& final(h).trace() == h.trace()
                &&& final(h)@ == h@.try_acquire(asset, index)
                &&& r == h@.try_acquire_result(asset, index)
            },
            None => r == 0,
        },
{
    match handle {
        Some(h) => {
            let ghost m = h@;
            proof {
                lemma_in_order(*h);
            }
            let r: usize = h.mgr.try_acquire(asset, index);
            proof {
                lemma_in_order(*h);
                lemma_keys_stay(m, h@);
            }
            r
        },
        None => 0,
    }
}

/// The address of a resident chunk, or 0; takes no lease.
pub fn deluge_resource_peek<B: Backend>(
    handle: Option<&mut DelugeResource<B>>,
    asset: u32,
    index: u32,
) -> (r: usize)
    requires
        handle is Some ==> handle->0.wf(),
    ensures
        match handle {
            Some(h) => {
                &&& final(h).wf()
                &&& final(h).reclaim == h.reclaim
                &&& final(h).backend == h.backend
                &&& final(h).trace() == h.trace()
                &&& final(h)@ == h@.searched(asset, index)
                &&& r == h@.peek_result(asset, index)
            },
            None => r == 0,
        },
{
    match handle {
        Some(h) => {
            let ghost m = h@;
            proof {
                lemma_in_order(*h);
            }
            let r: usize = h.mgr.peek(asset, index);
            proof {
                lemma_in_order(*h);
                lemma_keys_stay(m, h@);
            }
            r
        },
        None => 0,
    }
}

/// Says that a requested chunk's data has been read.
pub fn deluge_resource_mark_ready<B: Backend>(
    handle: Option<&mut DelugeResource<B>>,
    ptr: usize,
)
    requires
        handle is Some ==> handle->0.wf(),
    ensures
        match handle {
            Some(h) => {
                &&& final(h).wf()
                &&& final(h).reclaim == h.reclaim
                &&& final(h).backend == h.backend
                &&& final(h).trace() == h.trace()
                &&& final(h)@ == h@.mark_ready(ptr)
            },
            None => true,
        },
{
    match handle {
        Some(h) => {
            let ghost m = h@;
            proof {
                lemma_in_order(*h);
            }
            h.mgr.mark_ready(ptr);
            proof {
                lemma_in_order(*h);
                lemma_keys_stay(m, h@);
            }
        },
        None => {},
    }
}

/// The slot of a resident chunk, or `NO_SLOT`.
pub fn deluge_resource_slot_of<B: Backend>(
    handle: Option<&mut DelugeResource<B>>,
    ptr: usize,
) -> (r: u32)
    requires
        handle is Some ==> handle->0.wf(),
    ensures
        match handle {
            Some(h) => {
                &&& final(h).wf()
                &&& final(h).reclaim == h.reclaim
                &&& final(h).backend == h.backend
                &&& final(h).trace() == h.trace()
                &&& final(h)@ == h@.searched_ptr(ptr)
                &&& match h@.slot_at(ptr) {
                    Some(i) => r == i,
                    None => r == NO_SLOT,
                }
            },
            None => r == NO_SLOT,
        },
{
    match handle {
        Some(h) => {
            let ghost m = h@;
            proof {
                lemma_in_order(*h);
            }
            let r: u32 = h.mgr.slot_of(ptr);
            proof {
                lemma_in_order(*h);
                lemma_keys_stay(m, h@);
            }
            r
        },
        None => NO_SLOT,
    }
}

/// The asset and index of a resident chunk.
pub fn deluge_resource_chunk_ident<B: Backend>(
    handle: Option<&mut DelugeResource<B>>,
    ptr: usize,
) -> (r: Option<(u32, u32)>)
    requires
        handle is Some ==> handle->0.wf(),
    ensures
        match handle {
            Some(h) => {
                &&& final(h).wf()
                &&& final(h).reclaim == h.reclaim
                &&& final(h).backend == h.backend
                &&& final(h).trace() == h.trace()
                &&& final(h)@ == h@.searched_ptr(ptr)
                &&& match h@.slot_at(ptr) {
                    Some(i) => r == Some((h@.chunks[i].asset, h@.chunks[i].index)),
                    None => r is None,
                }
            },
            None => r is None,
        },
{
    match handle {
        Some(h) => {
            let ghost m = h@;
            proof {
                lemma_in_order(*h);
            }
            let r: Option<(u32, u32)> = h.mgr.chunk_ident(ptr);
            proof {
                lemma_in_order(*h);
                lemma_keys_stay(m, h@);
            }
            r
        },
        None => None,
    }
}

/// The hard leases on the chunk in a slot.
pub fn deluge_resource_lease_count_by_slot<B: Backend>(
    handle: Option<&DelugeResource<B>>,
    slot: u32,
) -> (r: u32)
    requires
        handle is Some ==> handle->0.wf(),
    ensures
        match handle {
            Some(h) => {
                &&& r == (if h@.live(slot) { h@.chunks[slot as int].leases } else { 0 })
            },
            None => r == 0,
        },
{
    match handle {
        Some(h) => {
            proof {
                lemma_in_order(*h);
            }
            h.mgr.lease_count_by_slot(slot)
        },
        None => 0,
    }
}

/// The hard leases on the chunk in a slot but for the load queue's own.
pub fn deluge_resource_external_lease_count_by_slot<B: Backend>(
    handle: Option<&DelugeResource<B>>,
    slot: u32,
) -> (r: u32)
    requires
        handle is Some ==> handle->0.wf(),
    ensures
        match handle {
            Some(h) => {
                &&& r == (if h@.live(slot) {
                    h@.chunks[slot as int].queue_released().leases
                } else {
                    0
                })
            },
            None => r == 0,
        },
{
    match handle {
        Some(h) => {
            proof {
                lemma_in_order(*h);
            }
            h.mgr.external_lease_count_by_slot(slot)
        },
        None => 0,
    }
}

/// Queues the chunk in a slot for loading.
pub fn deluge_resource_loader_enqueue<B: Backend>(
    handle: Option<&mut DelugeResource<B>>,
    slot: u32,
    priority: u32,
)
    requires
        handle is Some ==> handle->0.wf(),
    ensures
        match handle {
            Some(h) => {
                &&& final(h).wf()
                &&& final(h).reclaim == h.reclaim
                &&& final(h).backend == h.backend
                &&& final(h).trace() == h.trace()
                &&& final(h)@ == h@.enqueue(slot, priority)
            },
            None => true,
        },
{
    match handle {
        Some(h) => {
            let ghost m = h@;
            proof {
                lemma_in_order(*h);
            }
            h.mgr.loader_enqueue(slot, priority);
            proof {
                lemma_in_order(*h);
                lemma_keys_stay(m, h@);
            }
        },
        None => {},
    }
}

/// Queues the chunk in a slot with a lease of the queue's own.
pub fn deluge_resource_loader_enqueue_owned<B: Backend>(
    handle: Option<&mut DelugeResource<B>>,
    slot: u32,
    priority: u32,
)
    requires
        handle is Some ==> handle->0.wf(),
    ensures
        match handle {
            Some(h) => {
                &&& final(h).wf()
                &&& final(h).reclaim == h.reclaim
                &&& final(h).backend == h.backend
                &&& final(h).trace() == h.trace()
                &&& final(h)@ == h@.enqueue_owned(slot, priority)
            },
            None => true,
        },
{
    match handle {
        Some(h) => {
            let ghost m = h@;
            proof {
                lemma_in_order(*h);
            }
            h.mgr.loader_enqueue_owned(slot, priority);
            proof {
                lemma_in_order(*h);
                lemma_keys_stay(m, h@);
            }
        },
        None => {},
    }
}

/// Gives the queue's own lease back; says whether there was one.
pub fn deluge_resource_loader_release_owned<B: Backend>(
    handle: Option<&mut DelugeResource<B>>,
    slot: u32,
) -> (r: bool)
    requires
        handle is Some ==> handle->0.wf(),
    ensures
        match handle {
            Some(h) => {
                &&& final(h).wf()
                &&& final(h).reclaim == h.reclaim
                &&& final(h).backend == h.backend
                &&& final(h).trace() == h.trace()
                &&& final(h)@ == h@.release_owned(slot)
                &&& r == (h@.live(slot) && h@.chunks[slot as int].queue_leased)
            },
            None => !r,
        },
{
    match handle {
        Some(h) => {
            let ghost m = h@;
            proof {
                lemma_in_order(*h);
            }
            let r: bool = h.mgr.loader_release_owned(slot);
            proof {
                lemma_in_order(*h);
                lemma_keys_stay(m, h@);
            }
            r
        },
        None => false,
    }
}

/// Takes the chunk in a slot out of the load queue.
pub fn deluge_resource_loader_remove<B: Backend>(
    handle: Option<&mut DelugeResource<B>>,
    slot: u32,
)
    requires
        handle is Some ==> handle->0.wf(),
    ensures
        match handle {
            Some(h) => {
                &&& final(h).wf()
                &&& final(h).reclaim == h.reclaim
                &&& final(h).backend == h.backend
                &&& final(h).trace() == h.trace()
                &&& final(h)@ == h@.dequeue(slot)
            },
            None => true,
        },
{
    match handle {
        Some(h) => {
            let ghost m = h@;
            proof {
                lemma_in_order(*h);
            }
            h.mgr.loader_remove(slot);
            proof {
                lemma_in_order(*h);
                lemma_keys_stay(m, h@);
            }
        },
        None => {},
    }
}

/// Takes the most urgent leased chunk off the load queue; gives its address, or 0.
pub fn deluge_resource_loader_next<B: Backend>(
    handle: Option<&mut DelugeResource<B>>,
) -> (r: usize)
    requires
        handle is Some ==> handle->0.wf(),
    ensures
        match handle {
            Some(h) => {
                &&& final(h).wf()
                &&& final(h).reclaim == h.reclaim
                &&& final(h).backend == h.backend
                &&& final(h).trace() == h.trace()
                &&& final(h)@ == h@.popped()
                &&& match h@.next_up() {
                    Some(i) => r == h@.chunks[i].backing && r != 0,
                    None => r == 0,
                }
            },
            None => r == 0,
        },
{
    match handle {
        Some(h) => {
            let ghost m = h@;
            proof {
                lemma_in_order(*h);
            }
            let r: usize = h.mgr.loader_next();
            proof {
                lemma_in_order(*h);
                lemma_keys_stay(m, h@);
            }
            r
        },
        None => 0,
    }
}

/// Whether a chunk of the lowest urgency is left to load.
pub fn deluge_resource_loader_has_lowest<B: Backend>(
    handle: Option<&DelugeResource<B>>,
) -> (r: bool)
    requires
        handle is Some ==> handle->0.wf(),
    ensures
        match handle {
            Some(h) => {
                &&& r == h@.has_lowest()
            },
            None => !r,
        },
{
    match handle {
        Some(h) => {
            proof {
                lemma_in_order(*h);
            }
            h.mgr.loader_has_lowest()
        },
        None => false,
    }
}

/// Whether any chunk is left to load.
pub fn deluge_resource_loader_has_any<B: Backend>(
    handle: Option<&DelugeResource<B>>,
) -> (r: bool)
    requires
        handle is Some ==> handle->0.wf(),
    ensures
        match handle {
            Some(h) => {
                &&& r == h@.has_any()
            },
            None => !r,
        },
{
    match handle {
        Some(h) => {
            proof {
                lemma_in_order(*h);
            }
            h.mgr.loader_has_any()
        },
        None => false,
    }
}

/// The counters.
pub fn deluge_resource_stats<B: Backend>(
    handle: Option<&DelugeResource<B>>,
) -> (r: Option<Stats>)
    requires
        handle is Some ==> handle->0.wf(),
    ensures
        match handle {
            Some(h) => {
                &&& r == Some(h@.stats)
            },
            None => r is None,
        },
{
    match handle {
        Some(h) => {
            proof {
                lemma_in_order(*h);
            }
            Some(h.mgr.stats_snapshot())
        },
        None => None,
    }
}

/// Sets the counters to zero.
pub fn deluge_resource_stats_reset<B: Backend>(
    handle: Option<&mut DelugeResource<B>>,
)
    requires
        handle is Some ==> handle->0.wf(),
    ensures
        match handle {
            Some(h) => {
                &&& final(h).wf()
                &&& final(h).reclaim == h.reclaim
                &&& final(h).backend == h.backend
                &&& final(h).trace() == h.trace()
                &&& final(h)@ == (Model { stats: final(h)@.stats, ..h@ })
                &&& final(h)@.stats.zero()
            },
            None => true,
        },
{
    match handle {
        Some(h) => {
            let ghost m = h@;
            proof {
                lemma_in_order(*h);
            }
            h.mgr.stats_reset();
            proof {
                lemma_in_order(*h);
                lemma_keys_stay(m, h@);
            }
        },
        None => {},
    }
}

/// Drops a resident chunk that its owner is discarding.
pub fn deluge_resource_evict_chunk<B: Backend>(
    handle: Option<&mut DelugeResource<B>>,
    ptr: usize,
)
    requires
        handle is Some ==> handle->0.wf(),
    ensures
        match handle {
            Some(h) => {
                &&& final(h).wf()
                &&& final(h).reclaim == h.reclaim
                &&& final(h).follows(*h)
                &&& final(h)@ == h@.evict_chunk(ptr)
                &&& match h@.slot_at(ptr) {
                    Some(i) => frees(
                        h@.slab_of(h@.chunks[i].asset),
                        ptr,
                        since(h.trace(), final(h).trace()),
                    ),
                    None => final(h).trace() == h.trace(),
                }
            },
            None => true,
        },
{
    match handle {
        Some(h) => {
            h.evict_chunk(ptr);
        },
        None => {},
    }
}

/// Adopts memory as a resident chunk that may be evicted; gives its address, or 0.
pub fn deluge_resource_adopt<B: Backend>(
    handle: Option<&mut DelugeResource<B>>,
    ptr: usize,
    size: usize,
    cost: u32,
    ctx: usize,
    on_evict: Option<usize>,
) -> (r: usize)
    requires
        handle is Some ==> handle->0.wf(),
    ensures
        match handle {
            Some(h) => {
                &&& final(h).wf()
                &&& final(h).reclaim == h.reclaim
                &&& final(h).follows(*h)
                &&& r == (if ptr == 0 || full(h@) { 0 } else { ptr })
                &&& ptr == 0 ==> final(h)@ == h@ && final(h).trace() == h.trace()
                &&& ptr != 0 ==> adopts(
                    h@,
                    ptr,
                    size,
                    cost,
                    ctx,
                    on_evict,
                    since(h.trace(), final(h).trace()),
                    r,
                    final(h)@,
                )
                &&& r != 0 ==> exists|i: int|
                    reserved(
                        h@,
                        final(h)@,
                        i,
                        #[trigger] adopted_in(final(h)@, i, ptr, size, cost, ctx, on_evict),
                        h@.protect,
                    )
            },
            None => r == 0,
        },
{
    match handle {
        Some(h) => {
            h.adopt(ptr, size, cost, ctx, on_evict)
        },
        None => 0,
    }
}

/// Leases a resident chunk once more.
pub fn deluge_resource_add_lease<B: Backend>(
    handle: Option<&mut DelugeResource<B>>,
    ptr: usize,
)
    requires
        handle is Some ==> handle->0.wf(),
    ensures
        match handle {
            Some(h) => {
                &&& final(h).wf()
                &&& final(h).reclaim == h.reclaim
                &&& final(h).backend == h.backend
                &&& final(h).trace() == h.trace()
                &&& final(h)@ == h@.add_lease(ptr)
            },
            None => true,
        },
{
    match handle {
        Some(h) => {
            let ghost m = h@;
            proof {
                lemma_in_order(*h);
            }
            h.mgr.add_lease(ptr);
            proof {
                lemma_in_order(*h);
                lemma_keys_stay(m, h@);
            }
        },
        None => {},
    }
}

/// Gives one lease on a resident chunk back.
pub fn deluge_resource_release<B: Backend>(
    handle: Option<&mut DelugeResource<B>>,
    ptr: usize,
)
    requires
        handle is Some ==> handle->0.wf(),
    ensures
        match handle {
            Some(h) => {
                &&& final(h).wf()
                &&& final(h).reclaim == h.reclaim
                &&& final(h).backend == h.backend
                &&& final(h).trace() == h.trace()
                &&& final(h)@ == h@.release(ptr)
            },
            None => true,
        },
{
    match handle {
        Some(h) => {
            let ghost m = h@;
            proof {
                lemma_in_order(*h);
            }
            h.mgr.release(ptr);
            proof {
                lemma_in_order(*h);
                lemma_keys_stay(m, h@);
            }
        },
        None => {},
    }
}

/// Makes a resident chunk the most recently used.
pub fn deluge_resource_touch<B: Backend>(
    handle: Option<&mut DelugeResource<B>>,
    ptr: usize,
)
    requires
        handle is Some ==> handle->0.wf(),
    ensures
        match handle {
            Some(h) => {
                &&& final(h).wf()
                &&& final(h).reclaim == h.reclaim
                &&& final(h).backend == h.backend
                &&& final(h).trace() == h.trace()
                &&& final(h)@ == h@.touch(ptr)
            },
            None => true,
        },
{
    match handle {
        Some(h) => {
            let ghost m = h@;
            proof {
                lemma_in_order(*h);
            }
            h.mgr.touch(ptr);
            proof {
                lemma_in_order(*h);
                lemma_keys_stay(m, h@);
            }
        },
        None => {},
    }
}

/// Marks a resident chunk unsaved, or saved.
pub fn deluge_resource_mark_dirty<B: Backend>(
    handle: Option<&mut DelugeResource<B>>,
    ptr: usize,
    dirty: bool,
)
    requires
        handle is Some ==> handle->0.wf(),
    ensures
        match handle {
            Some(h) => {
                &&& final(h).wf()
                &&& final(h).reclaim == h.reclaim
                &&& final(h).backend == h.backend
                &&& final(h).trace() == h.trace()
                &&& final(h)@ == h@.set_dirty(ptr, dirty)
            },
            None => true,
        },
{
    match handle {
        Some(h) => {
            let ghost m = h@;
            proof {
                lemma_in_order(*h);
            }
            h.mgr.set_dirty(ptr, dirty);
            proof {
                lemma_in_order(*h);
                lemma_keys_stay(m, h@);
            }
        },
        None => {},
    }
}

/// Adds a soft reference to an asset.
pub fn deluge_resource_reference<B: Backend>(
    handle: Option<&mut DelugeResource<B>>,
    asset: u32,
)
    requires
        handle is Some ==> handle->0.wf(),
    ensures
        match handle {
            Some(h) => {
                &&& final(h).wf()
                &&& final(h).reclaim == h.reclaim
                &&& final(h).backend == h.backend
                &&& final(h).trace() == h.trace()
                &&& final(h)@ == (if asset < h@.assets.len() {
                    let a = h@.assets[asset as int];
                    h@.with_asset(asset, AssetSlot { soft_refs: a.soft_refs.wrapping_add(1), ..a })
                } else {
                    h@
                })
            },
            None => true,
        },
{
    match handle {
        Some(h) => {
            let ghost m = h@;
            proof {
                lemma_in_order(*h);
            }
            h.mgr.reference(asset, 1);
            proof {
                lemma_in_order(*h);
                lemma_keys_stay(m, h@);
            }
        },
        None => {},
    }
}

/// Takes a soft reference away from an asset, if it has one.
pub fn deluge_resource_unreference<B: Backend>(
    handle: Option<&mut DelugeResource<B>>,
    asset: u32,
)
    requires
        handle is Some ==> handle->0.wf(),
    ensures
        match handle {
            Some(h) => {
                &&& final(h).wf()
                &&& final(h).reclaim == h.reclaim
                &&& final(h).backend == h.backend
                &&& final(h).trace() == h.trace()
                &&& final(h)@ == (if asset < h@.assets.len() {
                    let a = h@.assets[asset as int];
                    h@.with_asset(asset, AssetSlot { soft_refs: (if a.soft_refs > 0 {
                                a.soft_refs - 1
                            } else {
                                0
                            }) as u32, ..a })
                } else {
                    h@
                })
            },
            None => true,
        },
{
    match handle {
        Some(h) => {
            let ghost m = h@;
            proof {
                lemma_in_order(*h);
            }
            h.mgr.reference(asset, -1);
            proof {
                lemma_in_order(*h);
                lemma_keys_stay(m, h@);
            }
        },
        None => {},
    }
}

} // verus!
