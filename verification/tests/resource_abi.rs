use deluge_rust::resource::abi::{
    deluge_resource_acquire, deluge_resource_add_lease, deluge_resource_adopt,
    deluge_resource_chunk_ident, deluge_resource_create, deluge_resource_create_unhooked,
    deluge_resource_define_asset, deluge_resource_evict_chunk,
    deluge_resource_external_lease_count_by_slot, deluge_resource_lease_count_by_slot,
    deluge_resource_loader_enqueue, deluge_resource_loader_enqueue_owned,
    deluge_resource_loader_has_any, deluge_resource_loader_has_lowest,
    deluge_resource_loader_next, deluge_resource_loader_release_owned,
    deluge_resource_loader_remove, deluge_resource_mark_dirty, deluge_resource_mark_ready,
    deluge_resource_peek, deluge_resource_reference, deluge_resource_release,
    deluge_resource_release_asset, deluge_resource_request, deluge_resource_set_construct,
    deluge_resource_set_evict_tail_first, deluge_resource_set_self_protect,
    deluge_resource_set_slab, deluge_resource_slot_of, deluge_resource_stats,
    deluge_resource_stats_reset, deluge_resource_touch, deluge_resource_try_acquire,
    deluge_resource_try_evict, deluge_resource_unreference,
};
use deluge_rust::resource::facade::{Backend, Resource};
use deluge_rust::resource::index::NONE;
use deluge_rust::resource::types::{Build, Notice, Rank, RankInput, BACKING_HEAP, NO_SLOT};

struct Plain {
    next: usize,
}

impl Backend for Plain {
    fn evict_rank(&mut self, input: RankInput) -> Rank {
        (0, 0, input.recency)
    }
    fn heap_alloc(&mut self, _size: usize, _align: usize) -> usize {
        self.next += 64;
        self.next
    }
    fn heap_free(&mut self, _p: usize) {}
    fn slab_acquire(&mut self, _slab: usize) -> usize {
        0
    }
    fn slab_release(&mut self, _slab: usize, _p: usize) -> bool {
        false
    }
    fn materialize(&mut self, _build: Build, _len: usize) -> bool {
        true
    }
    fn construct(&mut self, _build: Build) {}
    fn notify(&mut self, _notice: Notice) {}
}

#[test]
fn missing_handles_are_tolerated_everywhere() {
    type H<'a> = Option<&'a mut Resource<Plain>>;
    type R<'a> = Option<&'a Resource<Plain>>;
    assert!(!deluge_resource_try_evict(H::None));
    deluge_resource_set_slab(H::None, 1);
    assert_eq!(
        deluge_resource_define_asset(H::None, 0, None, None, 0, 1, BACKING_HEAP),
        NONE
    );
    deluge_resource_release_asset(H::None, 0);
    deluge_resource_set_construct(H::None, 0, None);
    deluge_resource_set_evict_tail_first(H::None, 0, true);
    deluge_resource_set_self_protect(H::None, 0, true);
    assert_eq!(deluge_resource_request(H::None, 0, 0, 8), 0);
    assert_eq!(deluge_resource_acquire(H::None, 0, 0, 8), 0);
    assert_eq!(deluge_resource_try_acquire(H::None, 0, 0), 0);
    assert_eq!(deluge_resource_peek(H::None, 0, 0), 0);
    deluge_resource_mark_ready(H::None, 8);
    assert_eq!(deluge_resource_slot_of(H::None, 8), NO_SLOT);
    assert_eq!(deluge_resource_chunk_ident(H::None, 8), None);
    assert_eq!(deluge_resource_lease_count_by_slot(R::None, 0), 0);
    assert_eq!(deluge_resource_external_lease_count_by_slot(R::None, 0), 0);
    deluge_resource_loader_enqueue(H::None, 0, 0);
    deluge_resource_loader_enqueue_owned(H::None, 0, 0);
    assert!(!deluge_resource_loader_release_owned(H::None, 0));
    deluge_resource_loader_remove(H::None, 0);
    assert_eq!(deluge_resource_loader_next(H::None), 0);
    assert!(!deluge_resource_loader_has_lowest(R::None));
    assert!(!deluge_resource_loader_has_any(R::None));
    assert!(deluge_resource_stats(R::None).is_none());
    deluge_resource_stats_reset(H::None);
    deluge_resource_evict_chunk(H::None, 8);
    assert_eq!(deluge_resource_adopt(H::None, 8, 8, 1, 0, None), 0);
    deluge_resource_add_lease(H::None, 8);
    deluge_resource_release(H::None, 8);
    deluge_resource_reference(H::None, 0);
    deluge_resource_unreference(H::None, 0);
    deluge_resource_touch(H::None, 8);
    deluge_resource_mark_dirty(H::None, 8, true);
}

#[test]
fn calls_through_a_handle_reach_the_cache() {
    assert!(deluge_resource_create(Some(Plain { next: 0 }), 0, 4).is_none());
    assert!(deluge_resource_create(Some(Plain { next: 0 }), 2, 0).is_none());
    assert!(deluge_resource_create::<Plain>(None, 2, 4).is_none());
    assert!(deluge_resource_create_unhooked::<Plain>(None, 2, 4).is_none());
    assert!(deluge_resource_create_unhooked(Some(Plain { next: 0 }), 2, 4).is_some());
    let mut r = deluge_resource_create(Some(Plain { next: 0 }), 2, 4).unwrap();
    let asset = deluge_resource_define_asset(Some(&mut r), 0, None, None, 0, 1, BACKING_HEAP);
    assert_eq!(asset, 0);
    assert_eq!(deluge_resource_request(Some(&mut r), asset, 0, 8), 0); // not requestable yet
    deluge_resource_set_construct(Some(&mut r), asset, Some(1));
    let p = deluge_resource_request(Some(&mut r), asset, 0, 8);
    assert_eq!(p, 64);
    assert_eq!(deluge_resource_peek(Some(&mut r), asset, 0), p);
    assert_eq!(deluge_resource_try_acquire(Some(&mut r), asset, 0), 0);
    deluge_resource_mark_ready(Some(&mut r), p);
    assert_eq!(deluge_resource_try_acquire(Some(&mut r), asset, 0), p);
    assert_eq!(deluge_resource_acquire(Some(&mut r), asset, 0, 8), p);
    let slot = deluge_resource_slot_of(Some(&mut r), p);
    assert_eq!(deluge_resource_lease_count_by_slot(Some(&r), slot), 3);
    assert_eq!(
        deluge_resource_chunk_ident(Some(&mut r), p),
        Some((asset, 0))
    );
    deluge_resource_loader_enqueue_owned(Some(&mut r), slot, u32::MAX);
    assert!(deluge_resource_loader_has_any(Some(&r)));
    assert!(deluge_resource_loader_has_lowest(Some(&r)));
    assert_eq!(
        deluge_resource_external_lease_count_by_slot(Some(&r), slot),
        3
    );
    assert_eq!(deluge_resource_loader_next(Some(&mut r)), p);
    assert!(deluge_resource_loader_release_owned(Some(&mut r), slot));
    for _ in 0..3 {
        deluge_resource_release(Some(&mut r), p);
    }
    deluge_resource_mark_dirty(Some(&mut r), p, true);
    assert!(!deluge_resource_try_evict(Some(&mut r)));
    deluge_resource_mark_dirty(Some(&mut r), p, false);
    assert!(deluge_resource_try_evict(Some(&mut r)));
    assert_eq!(deluge_resource_stats(Some(&r)).unwrap().evictions, 1);
    deluge_resource_stats_reset(Some(&mut r));
    assert_eq!(deluge_resource_stats(Some(&r)).unwrap().evictions, 0);
    assert_eq!(deluge_resource_adopt(Some(&mut r), 8, 8, 1, 0, None), 8);
    deluge_resource_evict_chunk(Some(&mut r), 8);
    assert_eq!(deluge_resource_slot_of(Some(&mut r), 8), NO_SLOT);
    deluge_resource_release_asset(Some(&mut r), asset);
    assert_eq!(deluge_resource_acquire(Some(&mut r), asset, 0, 8), 0);
}
