use std::cell::Cell;

use deluge_rust::resource::facade::{Backend, Chunk, Lease, Resource};
use deluge_rust::resource::index::NONE;
use deluge_rust::resource::sync::CountingMask;
use deluge_rust::resource::types::{
    Build, Notice, Rank, RankInput, Source, BACKING_HEAP, BACKING_SLAB, NO_SLOT,
};

const CHUNK_SIZE: usize = 4096;
const COST_IO: u32 = 1;

/// A program around the cache: memory is numbers, and every callback is written down.
struct TestBackend {
    next: usize,
    live: Vec<usize>,
    room: usize,
    slab_room: usize,
    freed: Vec<usize>,
    slab_freed: Vec<usize>,
    notices: Vec<Notice>,
    built: Vec<(Build, usize)>,
    constructed: Vec<Build>,
    materialize_ok: bool,
}

impl TestBackend {
    fn new(room: usize) -> Self {
        TestBackend {
            next: 0x1000,
            live: Vec::new(),
            room,
            slab_room: 0,
            freed: Vec::new(),
            slab_freed: Vec::new(),
            notices: Vec::new(),
            built: Vec::new(),
            constructed: Vec::new(),
            materialize_ok: true,
        }
    }
}

impl Backend for TestBackend {
    fn evict_rank(&mut self, input: RankInput) -> Rank {
        (
            if input.soft_refs > 0 { 1 } else { 0 },
            input.cost as u64,
            input.recency,
        )
    }

    fn heap_alloc(&mut self, _size: usize, align: usize) -> usize {
        assert_eq!(align, 16);
        if self.room == 0 {
            return 0;
        }
        self.room -= 1;
        self.next += 0x1000;
        self.live.push(self.next);
        self.next
    }

    fn heap_free(&mut self, p: usize) {
        self.room += 1;
        self.freed.push(p);
    }

    fn slab_acquire(&mut self, _slab: usize) -> usize {
        if self.slab_room == 0 {
            return 0;
        }
        self.slab_room -= 1;
        self.next += 0x1000;
        self.next
    }

    fn slab_release(&mut self, _slab: usize, p: usize) -> bool {
        self.slab_room += 1;
        self.slab_freed.push(p);
        true
    }

    fn materialize(&mut self, build: Build, len: usize) -> bool {
        self.built.push((build, len));
        self.materialize_ok
    }

    fn construct(&mut self, build: Build) {
        self.constructed.push(build);
    }

    fn notify(&mut self, notice: Notice) {
        self.notices.push(notice);
    }
}

type TestResource = Resource<TestBackend>;

fn resource(assets: usize, chunks: usize) -> TestResource {
    Resource::create(TestBackend::new(1000), assets, chunks, true).expect("create")
}

fn test_resource() -> TestResource {
    resource(4, 16)
}

fn source() -> Source {
    Source {
        materialize: Some(1),
        on_evict: None,
        construct: Some(2),
        ctx: 3,
        cost: COST_IO,
        backing: BACKING_HEAP,
    }
}

fn define_test_asset(r: &mut TestResource) -> u32 {
    r.mgr.define_asset(0, source())
}

#[test]
fn try_acquire_reports_resident_ready_and_none_on_miss() {
    let mut rsrc = test_resource();
    let asset = define_test_asset(&mut rsrc);
    assert!(rsrc.acquire_leased(asset, 0).is_none()); // not resident yet
    let req = rsrc.request(asset, 0, CHUNK_SIZE).expect("request");
    let c = req.chunk();
    rsrc.mark_ready(c);
    let got = rsrc.acquire_leased(asset, 0).expect("now ready");
    assert_eq!(got.chunk(), c); // same chunk identity
    rsrc.release_lease(req);
    rsrc.release_lease(got);
}

#[test]
fn lease_drop_releases_exactly_once() {
    let mut rsrc = test_resource();
    let asset = define_test_asset(&mut rsrc);
    let req = rsrc.request(asset, 0, CHUNK_SIZE).unwrap();
    let c = req.chunk();
    rsrc.mark_ready(c);
    let slot = rsrc.slot_of(c);
    let base = rsrc.lease_count_by_slot(slot); // pre-existing lease count (incl. `req`'s)
    let l = rsrc.lease(c);
    assert_eq!(rsrc.lease_count_by_slot(slot), base + 1); // took one
    rsrc.release_lease(l);
    assert_eq!(rsrc.lease_count_by_slot(slot), base); // released exactly one
}

#[test]
fn acquire_leased_takes_exactly_one_lease_and_drop_releases_it() {
    let mut rsrc = test_resource();
    let asset = define_test_asset(&mut rsrc);
    let req = rsrc.request(asset, 0, CHUNK_SIZE).unwrap();
    let c = req.chunk();
    rsrc.mark_ready(c);
    let slot = rsrc.slot_of(c);
    let base = rsrc.lease_count_by_slot(slot);
    let l = rsrc.acquire_leased(asset, 0).expect("resident+ready");
    assert_eq!(l.chunk(), c);
    assert_eq!(rsrc.lease_count_by_slot(slot), base + 1);
    rsrc.release_lease(l);
    assert_eq!(rsrc.lease_count_by_slot(slot), base);
}

#[test]
fn peek_is_resident_not_ready_gated_and_perturbs_neither_leases_nor_eviction_order() {
    let mut rsrc = test_resource();
    let asset = define_test_asset(&mut rsrc);

    // Not resident -> None.
    assert!(rsrc.peek(asset, 0).is_none());

    // Resident but NOT ready (`request` leaves `ready = false` until `mark_ready`).
    let req0 = rsrc.request(asset, 0, CHUNK_SIZE).unwrap();
    let c0 = req0.chunk();
    let slot0 = rsrc.slot_of(c0);
    let base0 = rsrc.lease_count_by_slot(slot0);
    let peeked = rsrc
        .peek(asset, 0)
        .expect("resident-but-not-ready is still a peek hit");
    assert_eq!(peeked, c0);
    assert_eq!(
        rsrc.lease_count_by_slot(slot0),
        base0,
        "peek must not take a lease"
    );

    // Now ready: same chunk, still no lease taken by peek.
    rsrc.mark_ready(c0);
    let peeked_ready = rsrc.peek(asset, 0).expect("resident and ready");
    assert_eq!(peeked_ready, c0);
    assert_eq!(rsrc.lease_count_by_slot(slot0), base0);

    // Release req0's lease so c0 becomes evictable, then give it a strictly newer sibling c1.
    rsrc.release_lease(req0);
    let req1 = rsrc.request(asset, 1, CHUNK_SIZE).unwrap();
    let c1 = req1.chunk();
    rsrc.mark_ready(c1);
    rsrc.release_lease(req1);

    // c0 is older -> evict_lowest would pick it first, with or without peeking it in between.
    for _ in 0..5 {
        assert_eq!(rsrc.peek(asset, 0), Some(c0));
    }
    let evicted = rsrc.evict_lowest();
    assert!(evicted, "something evictable should have been reclaimed");
    assert!(
        rsrc.peek(asset, 0).is_none(),
        "peeking c0 repeatedly must not have bumped its recency past c1's"
    );
    assert!(
        rsrc.peek(asset, 1).is_some(),
        "c1 (never peeked) must still be resident"
    );
}

#[test]
fn lease_is_storable_in_cell_option_and_take_drops_it() {
    let mut rsrc = test_resource();
    let asset = define_test_asset(&mut rsrc);
    let req = rsrc.request(asset, 0, CHUNK_SIZE).unwrap();
    let c = req.chunk();
    rsrc.mark_ready(c);
    let slot = rsrc.slot_of(c);
    let base = rsrc.lease_count_by_slot(slot);

    let cell: Cell<Option<Lease>> = Cell::new(Some(rsrc.lease(c)));
    assert_eq!(rsrc.lease_count_by_slot(slot), base + 1);

    let taken = cell.take();
    assert!(cell.take().is_none()); // cell is empty after the take
    assert!(taken.is_some());
    assert_eq!(rsrc.lease_count_by_slot(slot), base + 1); // still held by `taken`

    rsrc.release_lease(taken.unwrap()); // releases
    assert_eq!(rsrc.lease_count_by_slot(slot), base);
}

#[test]
fn lease_drop_is_masked_from_main_and_lockfree_from_isr() {
    let mut rsrc = test_resource();
    let asset = define_test_asset(&mut rsrc);
    let req = rsrc.request(asset, 0, CHUNK_SIZE).unwrap();
    let c = req.chunk();
    rsrc.mark_ready(c);
    let slot = rsrc.slot_of(c);
    let base = rsrc.lease_count_by_slot(slot); // includes `req`'s own lease

    // (a) MAIN context: dropping a lease enters the masked critical section and decrements once.
    let mut mask = CountingMask::new(false);
    let l = rsrc.lease(c);
    assert_eq!(rsrc.lease_count_by_slot(slot), base + 1, "lease took one");
    rsrc.drop_lease(&mut mask, l);
    let entered = mask.enter_count;
    assert!(
        entered >= 1,
        "main-context lease drop must enter the critical section on release"
    );
    assert_eq!(
        mask.exit_count, entered,
        "every masked enter is balanced by an exit"
    );
    assert_eq!(
        rsrc.lease_count_by_slot(slot),
        base,
        "masked release decremented exactly one lease"
    );

    // (b) AUDIO-ISR context: dropping a lease must NOT mask yet must still decrement once.
    let mut mask = CountingMask::new(true);
    let l = rsrc.lease(c);
    rsrc.drop_lease(&mut mask, l);
    assert_eq!(
        mask.enter_count, 0,
        "ISR-context lease drop must not take the critical section"
    );
    assert_eq!(mask.exit_count, 0);
    assert_eq!(
        rsrc.lease_count_by_slot(slot),
        base,
        "lock-free ISR release decremented exactly one lease"
    );
}

#[test]
fn interleaved_main_and_isr_lease_drops_on_different_slots_never_cross_corrupt() {
    let mut rsrc = test_resource();
    let asset = define_test_asset(&mut rsrc);

    // Two distinct resident+ready chunks -> two distinct chunk-table slots.
    let req0 = rsrc.request(asset, 0, CHUNK_SIZE).unwrap();
    let c0 = req0.chunk();
    rsrc.mark_ready(c0);
    let req1 = rsrc.request(asset, 1, CHUNK_SIZE).unwrap();
    let c1 = req1.chunk();
    rsrc.mark_ready(c1);
    let s0 = rsrc.slot_of(c0);
    let s1 = rsrc.slot_of(c1);
    assert_ne!(s0, s1, "the two chunks must occupy distinct slots");
    let base0 = rsrc.lease_count_by_slot(s0);
    let base1 = rsrc.lease_count_by_slot(s1);

    // Take a main-context lease on slot0 and an ISR-context lease on slot1.
    let lm = rsrc.lease(c0); // main, slot0
    let li = rsrc.lease(c1); // ISR, slot1
    assert_eq!(rsrc.lease_count_by_slot(s0), base0 + 1);
    assert_eq!(rsrc.lease_count_by_slot(s1), base1 + 1);

    // Interleave the drops: ISR release (lock-free) first, then main release (masked).
    let mut isr = CountingMask::new(true);
    rsrc.drop_lease(&mut isr, li);
    let mut main = CountingMask::new(false);
    rsrc.drop_lease(&mut main, lm);

    // Each slot decremented exactly its own lease; no cross-slot leakage either way.
    assert_eq!(
        rsrc.lease_count_by_slot(s0),
        base0,
        "main-path release on slot0 decremented only slot0"
    );
    assert_eq!(
        rsrc.lease_count_by_slot(s1),
        base1,
        "ISR-path release on slot1 decremented only slot1"
    );
    assert_eq!((isr.enter_count, main.enter_count), (0, 1));
}

#[test]
fn chunk_ident_reports_asset_and_index_for_a_resident_chunk() {
    let mut rsrc = test_resource();
    let asset = define_test_asset(&mut rsrc);
    let req = rsrc.request(asset, 3, CHUNK_SIZE).unwrap();
    let c = req.chunk();
    rsrc.mark_ready(c);
    assert_eq!(rsrc.chunk_ident(c), Some((asset, 3)));
}

#[test]
fn chunk_ident_is_none_for_a_non_resident_pointer() {
    let mut rsrc = test_resource();
    define_test_asset(&mut rsrc); // manager has at least one asset, but no resident chunks
    let bogus = Chunk::from_ptr(0x1234_usize).unwrap();
    assert_eq!(rsrc.chunk_ident(bogus), None);
}

#[test]
fn pin_token_round_trips_retain_release_balance() {
    let mut rsrc = test_resource();
    let asset = define_test_asset(&mut rsrc);
    let req = rsrc.request(asset, 0, CHUNK_SIZE).unwrap();
    let c = req.chunk();
    rsrc.mark_ready(c);
    let slot = rsrc.slot_of(c);
    let base = rsrc.lease_count_by_slot(slot);
    let token = rsrc.pin_token(c);
    assert_ne!(token, 0, "a resident chunk yields a nonzero token");
    rsrc.retain_token(token);
    assert_eq!(rsrc.lease_count_by_slot(slot), base + 1);
    rsrc.release_token(token);
    assert_eq!(rsrc.lease_count_by_slot(slot), base);
    // Zero token is a no-op both ways.
    rsrc.retain_token(0);
    rsrc.release_token(0);
    assert_eq!(rsrc.lease_count_by_slot(slot), base);
}

#[test]
fn generation_bumps_on_slot_reuse_and_gates_stale_retain() {
    let mut m = resource(4, 1); // 1 chunk slot
    let asset = define_test_asset(&mut m);

    // Occupy the (only) slot, capture its {slot, generation}.
    let p0 = m.request_ptr(asset, 0, 64);
    assert!(p0 != 0);
    let slot0 = m.mgr.slot_of(p0);
    let gen0 = m.mgr.generation_of_slot(slot0);
    assert!(gen0 >= 1, "a live slot has a nonzero generation");

    // Release + force reuse: with a 1-slot chunk table, a distinct-index request
    // MUST evict slot0 (now unleased) and reuse the same slot for a new chunk.
    m.mgr.release(p0); // leases -> 0 (evictable)
    let p1 = m.request_ptr(asset, 1, 64);
    assert!(p1 != 0);
    let slot1 = m.mgr.slot_of(p1);
    assert_eq!(
        slot1, slot0,
        "single-slot table: reuse must be the same slot"
    );
    let gen1 = m.mgr.generation_of_slot(slot1);
    assert!(
        gen1 > gen0,
        "reused slot must have a strictly greater generation"
    );

    // A retain keyed on the STALE (slot0, gen0) must be a checked no-op.
    let before = m.mgr.lease_count_by_slot(slot1);
    assert!(
        !m.mgr.retain_by_slot_gen(slot0, gen0),
        "stale generation must not lease"
    );
    assert_eq!(
        m.mgr.lease_count_by_slot(slot1),
        before,
        "no lease taken on stale handle"
    );

    // A retain on the CURRENT handle succeeds and balances with release.
    assert!(m.mgr.retain_by_slot_gen(slot1, gen1));
    assert_eq!(m.mgr.lease_count_by_slot(slot1), before + 1);
    assert!(m.mgr.release_by_slot_gen(slot1, gen1));
    assert_eq!(m.mgr.lease_count_by_slot(slot1), before);
}

#[test]
fn leased_and_unsaved_chunks_are_never_evicted() {
    let mut r = resource(4, 2);
    let asset = define_test_asset(&mut r);
    let a = r.acquire(asset, 0, 64); // leased
    let b = r.acquire(asset, 1, 64);
    r.mgr.set_dirty(b, true);
    r.mgr.release(b); // unsaved
    assert!(!r.evict_lowest());
    assert_eq!(r.request_ptr(asset, 2, 64), 0); // full, and nothing may go
    r.mgr.set_dirty(b, false);
    let c = r.request_ptr(asset, 2, 64);
    assert!(c != 0);
    assert_eq!(r.mgr.slot_of(b), NO_SLOT);
    assert_eq!(r.mgr.slot_of(a), 0);
    assert_eq!(r.mgr.stats_snapshot().evictions, 1);
    assert_eq!(
        r.mgr.stats_snapshot().evictions_by_cost,
        [0, 1, 0, 0, 0, 0, 0, 0]
    );
}

#[test]
fn acquire_builds_once_and_a_hit_keeps_the_address() {
    let mut r = test_resource();
    let asset = r.mgr.define_asset(77, source());
    let p = r.acquire(asset, 5, 100);
    assert_eq!(
        r.backend.built,
        vec![(
            Build {
                callback: 1,
                ctx: 3,
                owner: 77,
                index: 5,
                dest: p
            },
            100
        )]
    );
    assert_eq!(r.acquire(asset, 5, 100), p);
    assert_eq!(r.backend.built.len(), 1);
    let slot = r.mgr.slot_of(p);
    assert_eq!(r.mgr.lease_count_by_slot(slot), 2);
    let s = r.mgr.stats_snapshot();
    assert_eq!((s.acquires, s.acquire_hits, s.materializes), (2, 1, 1));
}

#[test]
fn a_chunk_that_cannot_be_built_is_given_up() {
    let mut r = test_resource();
    let asset = define_test_asset(&mut r);
    r.backend.materialize_ok = false;
    assert_eq!(r.acquire(asset, 0, 64), 0);
    assert_eq!(r.mgr.peek(asset, 0), 0);
    assert_eq!(r.backend.freed.len(), 1);
    assert_eq!(r.mgr.lease_count_by_slot(0), 0);
}

#[test]
fn assets_that_are_unknown_or_not_requestable_are_refused() {
    let mut r = test_resource();
    assert_eq!(r.acquire(0, 0, 64), 0);
    assert_eq!(r.request_ptr(9, 0, 64), 0);
    let asset = define_test_asset(&mut r);
    r.mgr.set_construct(asset, None);
    assert!(r.request(asset, 0, 64).is_none());
    r.mgr.set_construct(asset, Some(4));
    assert!(r.request(asset, 0, 64).is_some());
    assert_eq!(r.backend.constructed[0].callback, 4);
    assert_eq!(r.mgr.stats_snapshot().requests, 1);
}

#[test]
fn failed_allocations_evict_and_try_again() {
    let mut r = Resource::create(TestBackend::new(2), 4, 16, true).unwrap();
    let asset = define_test_asset(&mut r);
    let a = r.request_ptr(asset, 0, 64);
    let b = r.request_ptr(asset, 1, 64);
    r.mgr.release(a);
    let c = r.request_ptr(asset, 2, 64);
    assert!(c != 0);
    assert_eq!(r.backend.freed, vec![a]);
    assert_eq!(r.mgr.peek(asset, 1), b);
    // Everything is leased now.
    assert_eq!(r.request_ptr(asset, 3, 64), 0);
    assert_eq!(r.mgr.stats_snapshot().alloc_failures, 1);

    // Without reclaiming, the first failure stands.
    let mut r = Resource::create(TestBackend::new(1), 4, 16, false).unwrap();
    let asset = define_test_asset(&mut r);
    let a = r.request_ptr(asset, 0, 64);
    r.mgr.release(a);
    assert_eq!(r.request_ptr(asset, 1, 64), 0);
    assert!(r.evict_lowest());
    assert!(r.request_ptr(asset, 1, 64) != 0);
}

#[test]
fn tail_first_assets_lose_their_highest_chunk_and_retire_from_the_top() {
    let mut r = resource(4, 8);
    let asset = r.mgr.define_asset(
        9,
        Source {
            on_evict: Some(6),
            ..source()
        },
    );
    r.mgr.set_evict_tail_first(asset, true);
    for i in [1u32, 0, 2] {
        let p = r.request_ptr(asset, i, 64);
        r.mgr.release(p);
    }
    assert!(r.evict_lowest());
    assert_eq!(r.mgr.peek(asset, 2), 0);
    assert!(r.mgr.peek(asset, 0) != 0 && r.mgr.peek(asset, 1) != 0);
    assert_eq!(
        r.backend.notices,
        vec![Notice::Owner {
            callback: 6,
            ctx: 3,
            owner: 9,
            index: 2
        }]
    );
    assert_eq!(r.release_asset(asset), vec![0, 1]); // slot 0 holds index 1
    assert_eq!(
        r.backend.notices[1..],
        [
            Notice::Owner {
                callback: 6,
                ctx: 3,
                owner: 9,
                index: 1
            },
            Notice::Owner {
                callback: 6,
                ctx: 3,
                owner: 9,
                index: 0
            }
        ]
    );
    assert_eq!(r.mgr.peek(asset, 0), 0);
    assert_eq!(define_test_asset(&mut r), asset); // the slot is free again
    assert!(r.release_asset(3).is_empty());
}

#[test]
fn retiring_drops_leased_chunks_in_slot_order() {
    let mut r = test_resource();
    let other = define_test_asset(&mut r);
    let asset = define_test_asset(&mut r);
    let a = r.request_ptr(asset, 8, 64);
    let keep = r.request_ptr(other, 8, 64);
    let b = r.request_ptr(asset, 3, 64);
    assert_eq!(r.release_asset(asset), vec![0, 2]);
    assert_eq!(r.backend.freed, vec![a, b]);
    assert_eq!(r.mgr.peek(other, 8), keep);
    assert_eq!(r.acquire(asset, 8, 64), 0);
}

#[test]
fn self_protecting_assets_keep_their_chunks_while_they_allocate() {
    let mut r = resource(4, 2);
    let cache = define_test_asset(&mut r);
    r.mgr.set_self_protect(cache, true);
    for i in 0..2 {
        let p = r.request_ptr(cache, i, 64);
        r.mgr.release(p);
    }
    assert_eq!(r.request_ptr(cache, 2, 64), 0);
    let other = define_test_asset(&mut r);
    assert!(r.request_ptr(other, 0, 64) != 0); // others may take them
    assert_eq!(r.mgr.peek(cache, 0), 0);
    assert!(r.mgr.peek(cache, 1) != 0);
}

#[test]
fn adopted_blocks_are_evicted_by_value_and_their_owner_is_told() {
    let mut r = resource(4, 2);
    assert_eq!(r.adopt(0, 64, 5, 1, None), 0);
    assert_eq!(r.adopt(0x500, 64, 5, 1, Some(8)), 0x500);
    assert_eq!(r.adopt(0x600, 64, 1, 2, None), 0x600);
    assert!(r.mgr.is_ready_by_ptr(0x500));
    assert_eq!(r.mgr.chunk_ident(0x500), Some((NONE, 0)));
    assert_eq!(r.mgr.find_resident(NONE, 0), Some(0));
    // The cheaper one goes first.
    assert_eq!(r.adopt(0x700, 64, 9, 3, None), 0x700);
    assert_eq!(r.mgr.slot_of(0x600), NO_SLOT);
    assert!(r.backend.notices.is_empty()); // nobody asked to be told
    assert!(r.evict_lowest());
    assert_eq!(
        r.backend.notices[0],
        Notice::Adopter {
            callback: 8,
            ctx: 1,
            backing: 0x500
        }
    );
    assert_eq!(r.backend.freed, vec![0x600, 0x500]);
    r.mgr.add_lease(0x700);
    assert!(!r.evict_lowest());
}

#[test]
fn soft_references_raise_an_assets_value() {
    let mut r = resource(4, 2);
    let a = define_test_asset(&mut r);
    let b = define_test_asset(&mut r);
    let p = r.request_ptr(a, 0, 64);
    let q = r.request_ptr(b, 0, 64);
    r.mgr.release(p);
    r.mgr.release(q);
    r.mgr.reference(a, 1);
    assert!(r.evict_lowest());
    assert_eq!(r.mgr.peek(b, 0), 0); // the older one of `a` stays
    r.mgr.reference(a, -5);
    assert!(r.evict_lowest());
    assert_eq!(r.mgr.peek(a, 0), 0);
}

#[test]
fn slab_assets_take_and_give_back_slab_slots() {
    let mut r = test_resource();
    r.backend.slab_room = 1;
    r.mgr.set_slab(0xAB);
    let asset = r.mgr.define_asset(
        0,
        Source {
            backing: BACKING_SLAB,
            ..source()
        },
    );
    let p = r.request_ptr(asset, 0, 64);
    assert_eq!(r.backend.slab_room, 0);
    r.mgr.release(p);
    r.evict_chunk(p);
    assert_eq!(r.backend.slab_freed, vec![p]);
    assert!(r.backend.notices.is_empty()); // the owner discarded it itself
    assert_eq!(r.mgr.peek(asset, 0), 0);
}

#[test]
fn touching_changes_which_chunk_goes_first() {
    let mut r = test_resource();
    let asset = define_test_asset(&mut r);
    let a = r.request_ptr(asset, 0, 64);
    let b = r.request_ptr(asset, 1, 64);
    r.mgr.release(a);
    r.mgr.release(b);
    r.mgr.touch(a);
    assert!(r.evict_lowest());
    assert_eq!(r.mgr.peek(asset, 0), a);
    assert_eq!(r.mgr.peek(asset, 1), 0);
}

#[test]
fn null_is_not_a_resident_chunk() {
    let mut r = test_resource();
    r.mgr.add_lease(0);
    r.mgr.release(0);
    r.mgr.mark_ready(0);
    assert_eq!(r.mgr.slot_of(0), NO_SLOT);
    assert_eq!(r.mgr.chunk_ident(0), None);
    assert!(!r.mgr.is_ready_by_ptr(0));
    assert_eq!(r.mgr.lease_count_by_slot(0), 0);
}

#[test]
fn load_queue_serves_the_most_urgent_leased_chunk() {
    let mut r = test_resource();
    let asset = define_test_asset(&mut r);
    let a = r.request_ptr(asset, 0, 64);
    let b = r.request_ptr(asset, 1, 64);
    let c = r.request_ptr(asset, 2, 64);
    let d = r.request_ptr(asset, 3, 64);
    for (p, pri) in [(a, 9u32), (b, 3), (c, 3), (d, 0)] {
        let slot = r.mgr.slot_of(p);
        r.mgr.loader_enqueue(slot, pri);
    }
    r.mgr.release(d); // abandoned
    assert!(r.mgr.loader_has_any());
    assert!(!r.mgr.loader_has_lowest());
    assert_eq!(r.mgr.loader_next(), b);
    assert_eq!(r.mgr.loader_next(), c);
    r.mgr.add_lease(d); // too late: it is off the queue
    assert_eq!(r.mgr.loader_next(), a);
    assert_eq!(r.mgr.loader_next(), 0);
    assert!(!r.mgr.loader_has_any());
    let slot = r.mgr.slot_of(d);
    r.mgr.loader_enqueue(slot, u32::MAX);
    assert!(r.mgr.loader_has_lowest());
    r.mgr.loader_remove(slot);
    assert!(!r.mgr.loader_has_any());
}

#[test]
fn queue_owned_leases_keep_an_entry_alive_and_balance() {
    let mut r = test_resource();
    let asset = define_test_asset(&mut r);
    let p = r.request_ptr(asset, 0, 64);
    let slot = r.mgr.slot_of(p);
    r.mgr.loader_enqueue_owned(slot, 5);
    r.mgr.loader_enqueue_owned(slot, 4);
    assert_eq!(r.mgr.lease_count_by_slot(slot), 2);
    assert_eq!(r.mgr.external_lease_count_by_slot(slot), 1);
    r.mgr.release(p);
    assert_eq!(r.mgr.external_lease_count_by_slot(slot), 0);
    assert!(!r.evict_lowest());
    assert_eq!(r.mgr.loader_next(), p);
    assert!(r.mgr.loader_release_owned(slot));
    assert!(!r.mgr.loader_release_owned(slot));
    assert_eq!(r.mgr.lease_count_by_slot(slot), 0);
    r.mgr.loader_enqueue_owned(slot, 5);
    r.mgr.loader_remove(slot);
    assert_eq!(r.mgr.lease_count_by_slot(slot), 0);
    assert!(!r.mgr.loader_release_owned(1000));
}

#[test]
fn index_finds_what_a_scan_finds_through_churn() {
    let mut r = resource(8, 6);
    for _ in 0..3 {
        define_test_asset(&mut r);
    }
    let mut x = 12345u32;
    for _ in 0..2000 {
        x = x.wrapping_mul(1664525).wrapping_add(1013904223);
        let asset = (x >> 8) % 3;
        let index = (x >> 16) % 7;
        if (x >> 24) % 3 == 0 {
            let p = r.mgr.peek(asset, index);
            if p != 0 {
                r.evict_chunk(p);
            }
            assert_eq!(r.mgr.peek(asset, index), 0);
        } else {
            let p = r.request_ptr(asset, index, 64);
            assert!(p != 0);
            r.mgr.release(p);
            assert_eq!(r.mgr.peek(asset, index), p);
            assert_eq!(r.mgr.chunk_ident(p), Some((asset, index)));
        }
        // Every resident chunk is found under its own key, in its own slot.
        for a in 0..3 {
            for i in 0..7 {
                match r.mgr.find_resident(a, i) {
                    Some(slot) => {
                        let p = r.mgr.peek(a, i);
                        assert_eq!(r.mgr.slot_of(p) as usize, slot);
                        assert_eq!(r.mgr.chunk_ident(p), Some((a, i)));
                    }
                    None => assert_eq!(r.mgr.peek(a, i), 0),
                }
            }
        }
    }
    assert!(r.mgr.stats_snapshot().evictions > 0);
    r.mgr.stats_reset();
    assert_eq!(r.mgr.stats_snapshot().evictions, 0);
}

#[test]
fn victims_are_chosen_by_rank_and_changed_slots_are_skipped() {
    let mut r = resource(4, 3);
    let asset = define_test_asset(&mut r);
    for i in 0..3 {
        let p = r.request_ptr(asset, i, 64);
        r.mgr.release(p);
    }
    let ranks = vec![(1, 0, 0), (0, 9, 9), (0, 9, 9)];
    assert_eq!(r.mgr.pick_victim(&ranks, None), Some(1));
    assert_eq!(r.mgr.pick_victim(&ranks, Some(1)), Some(2));
    let top = vec![(u8::MAX, u64::MAX, u64::MAX); 3];
    assert_eq!(r.mgr.pick_victim(&top, None), Some(0));
    let p = r.mgr.peek(asset, 1);
    r.mgr.add_lease(p);
    assert!(r.mgr.evict_slot(1).is_none()); // leased since it was chosen
    assert_eq!(r.mgr.pick_victim(&ranks, None), Some(2));
    assert_eq!(r.mgr.rank_inputs()[0].unwrap().size, 64);
    assert!(r.mgr.rank_inputs()[1].is_none());
}

#[test]
fn capacities_of_zero_make_no_cache() {
    assert!(Resource::create(TestBackend::new(1), 0, 1, true).is_none());
    assert!(Resource::create(TestBackend::new(1), 1, 0, true).is_none());
    let mut r = resource(1, 1);
    assert_eq!(define_test_asset(&mut r), 0);
    assert_eq!(define_test_asset(&mut r), NONE); // the table is full
}

#[test]
fn memory_is_in_the_table_or_was_given_back_once() {
    let mut r = Resource::create(TestBackend::new(4), 4, 6, true).unwrap();
    let keep = define_test_asset(&mut r);
    let tail = define_test_asset(&mut r);
    r.mgr.set_evict_tail_first(tail, true);
    let mut x = 99u32;
    for round in 0..500 {
        x = x.wrapping_mul(1664525).wrapping_add(1013904223);
        let asset = if (x >> 9) % 2 == 0 { keep } else { tail };
        let index = (x >> 16) % 5;
        r.backend.materialize_ok = (x >> 20) % 4 != 0;
        match (x >> 24) % 5 {
            0 | 1 => {
                let p = r.acquire(asset, index, 64);
                if p != 0 {
                    r.mgr.release(p);
                }
            }
            2 => {
                let p = r.request_ptr(asset, index, 64);
                if p != 0 {
                    r.mgr.release(p);
                }
            }
            3 => {
                let p = r.mgr.peek(asset, index);
                r.evict_chunk(p);
            }
            _ => {
                if round % 50 == 0 {
                    r.release_asset(tail);
                    assert_eq!(define_test_asset(&mut r), tail);
                } else {
                    r.evict_lowest();
                }
            }
        }
        // What the heap gave and did not get back is what the slots hold.
        let mut held = r.backend.live.clone();
        for p in &r.backend.freed {
            let at = held.iter().position(|q| q == p).expect("freed once");
            held.remove(at);
        }
        let mut slots = Vec::new();
        for a in [keep, tail] {
            for i in 0..5 {
                let p = r.mgr.peek(a, i);
                if p != 0 {
                    slots.push(p);
                }
            }
        }
        held.sort_unstable();
        slots.sort_unstable();
        assert_eq!(held, slots);
    }
}
