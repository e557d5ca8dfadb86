use deluge_rust::fill::fill_logic::{
    ConvertCall, Converted, SampleConvert, StitchCall, Stitched,
};
use deluge_rust::fill::native::{Awaited, Host, Streaming};
use deluge_rust::resource::facade::{Backend, Chunk, Resource};
use deluge_rust::resource::types::{Build, Notice, Rank, RankInput, Source, BACKING_HEAP};
use deluge_rust::source::cursor::{RegionState, SampleSource};
use deluge_rust::source::geometry::Geometry;
use deluge_rust::source::manager_residency::ManagerResidency;
use deluge_rust::source::pool::{
    num_clusters_for, DelugeRegionState, SourcePool, POOL_SIZE,
};
use deluge_rust::source::residency::{Get, RegionPin, Residency};

const CLUSTER_SIZE: usize = 16;
const CHUNK_CAP: usize = 16;

/// Memory is numbers; there is enough of it.
struct Mem {
    next: usize,
}

impl Backend for Mem {
    fn evict_rank(&mut self, input: RankInput) -> Rank {
        (0, 0, input.recency)
    }
    fn heap_alloc(&mut self, _size: usize, _align: usize) -> usize {
        self.next += 0x100;
        self.next
    }
    fn heap_free(&mut self, _p: usize) {}
    fn slab_acquire(&mut self, _slab: usize) -> usize {
        0
    }
    fn slab_release(&mut self, _slab: usize, _p: usize) -> bool {
        false
    }
    fn materialize(&mut self, _build: Build, _len: usize) -> bool {
        false
    }
    fn construct(&mut self, _build: Build) {}
    fn notify(&mut self, _notice: Notice) {}
}

/// A card that is never asked: the tests stand in for the loader.
struct NoCard;

impl SampleConvert for NoCard {
    fn convert_cluster(_call: ConvertCall) -> Converted {
        unreachable!()
    }
    fn stitch_boundaries(_call: StitchCall) -> Stitched {
        unreachable!()
    }
}

impl Host for NoCard {
    fn efatfs_read_at(&mut self, _handle: u32, _offset: u32, _count: u32) -> (bool, Vec<u8>) {
        unreachable!()
    }
    fn async_active(&mut self) -> bool {
        false
    }
    fn efatfs_read_awaited(&mut self, _handle: u32, _offset: u32, _count: u32) -> Awaited {
        unreachable!()
    }
    fn signal_fill(&mut self) {}
}

type Store = Streaming<Mem, NoCard>;
type TestSource = SampleSource<ManagerResidency<Mem, NoCard>>;

fn test_store() -> (Store, u32) {
    let res = Resource::create(Mem { next: 0x1000 }, 4, CHUNK_CAP, true).unwrap();
    let mut st = Streaming::new(res, NoCard);
    let asset = st.res.mgr.define_asset(
        0,
        Source {
            materialize: None,
            on_evict: None,
            construct: Some(1),
            ctx: 0,
            cost: 1,
            backing: BACKING_HEAP,
        },
    );
    (st, asset)
}

/// Stands in for the loader: cluster `index` holds a ramp and is ready. Keeps no lease.
fn mark_index_ready(st: &mut Store, asset: u32, index: u32) {
    let lease = match st.res.acquire_leased(asset, index) {
        Some(l) => l,
        None => st
            .request(asset, index, CLUSTER_SIZE as u32)
            .expect("reserve for mark-ready failed"),
    };
    let p = lease.chunk().as_ptr();
    let mut c = st.chunks.take(p).unwrap();
    for b in 0..CLUSTER_SIZE {
        c.bytes[b] = (index as u8).wrapping_mul(16).wrapping_add(b as u8);
    }
    st.chunks.put(p, c);
    st.res.mark_ready(lease.chunk());
    st.res.release_lease(lease);
}

/// The chunk itself is what a region gives the address of.
fn bytes_at(st: &Store, payload_base: usize) -> Vec<u8> {
    st.chunks
        .bytes(payload_base)
        .unwrap()
        .clone()
}

/// All leases of the table: pins must neither leak nor be given back twice.
fn total_leases(st: &Store) -> u64 {
    (0..CHUNK_CAP as u32)
        .map(|slot| st.res.lease_count_by_slot(slot) as u64)
        .sum()
}

fn test_geo(num_clusters: u32) -> Geometry {
    Geometry {
        audio_data_start_bytes: 0,
        audio_data_length_bytes: (num_clusters as u64) * (CLUSTER_SIZE as u64),
        cluster_size_bytes: CLUSTER_SIZE as u32,
        byte_depth: 2,
        num_channels: 1,
        raw_data_format: 0,
    }
}

fn new_source(num_clusters: u32) -> (TestSource, Store, u32) {
    let (st, asset) = test_store();
    let residency = ManagerResidency::new(asset, CLUSTER_SIZE as u32, num_clusters);
    (
        SampleSource::new(residency, test_geo(num_clusters)),
        st,
        asset,
    )
}

fn assert_distinct(src: &TestSource) {
    let cur = src.current_index();
    let pending = src.pending_index();
    let pre = src.prefetch_index();
    let held: Vec<u32> = [cur, pending, pre].into_iter().flatten().collect();
    let mut sorted = held.clone();
    sorted.sort_unstable();
    sorted.dedup();
    assert_eq!(
        sorted.len(),
        held.len(),
        "slots must track pairwise-distinct indices: current={cur:?} pending={pending:?} prefetch={pre:?}"
    );
}

#[test]
fn acquire_unavailable_leaves_nothing_leased() {
    let (mut src, mut st, _asset) = new_source(4);
    let (state, out) = src.acquire_ex(&mut st, 100, 0, 0); // out of range -> Unavailable
    assert_eq!(state, RegionState::Unavailable);
    assert!(out.is_none());
    assert_eq!(total_leases(&st), 0, "unavailable must leak/hold nothing");
}

#[test]
fn acquire_loading_retains_pending_and_leaves_current() {
    let (mut src, mut st, _asset) = new_source(4);
    let (state, out) = src.acquire_ex(&mut st, 0, 0, 0); // not resident -> reserved -> Loading
    assert_eq!(state, RegionState::Loading);
    assert!(out.is_none());
    assert_eq!(total_leases(&st), 1, "pending holds exactly one lease");

    let (state2, out2) = src.acquire_ex(&mut st, 0, 0, 0);
    assert_eq!(state2, RegionState::Loading);
    assert!(out2.is_none());
    assert_eq!(
        total_leases(&st),
        1,
        "re-acquiring a loading index must stay one pending lease"
    );
}

#[test]
fn acquire_ready_pins_current_fills_out_and_fuses_old_current() {
    let (mut src, mut st, asset) = new_source(4);
    mark_index_ready(&mut st, asset, 0);

    let (state, out) = src.acquire_ex(&mut st, 0, 1, 0);
    assert_eq!(state, RegionState::Ready);
    let out0 = out.expect("ready must fill out");
    assert_eq!(out0.region_index, 0);
    assert_eq!(out0.resident_bytes, CLUSTER_SIZE as u32);
    let bytes = bytes_at(&st, out0.payload_base);
    for b in 0..CLUSTER_SIZE {
        assert_eq!(bytes[b], b as u8, "ramp byte {b} of cluster 0");
    }
    assert_eq!(
        total_leases(&st),
        2,
        "one current lease + one standing prefetch lease after first Ready"
    );

    mark_index_ready(&mut st, asset, 1);
    let (state1, out1) = src.acquire_ex(&mut st, 1, 1, 0);
    assert_eq!(state1, RegionState::Ready);
    let out1 = out1.expect("ready must fill out");
    assert_eq!(out1.region_index, 1);
    assert_eq!(
        total_leases(&st),
        2,
        "advancing current promotes+fuses net zero; prefetching index 2 adds one"
    );

    let (state1b, out1b) = src.acquire_ex(&mut st, 1, 1, 0);
    assert_eq!(state1b, RegionState::Ready);
    let out1b = out1b.expect("ready must fill out");
    assert_eq!(
        total_leases(&st),
        2,
        "re-acquiring the current index is net zero; the standing prefetch is untouched"
    );
    assert_eq!(
        out1b.lease, out1.lease,
        "dedupe: same token as standing current"
    );
    assert_eq!(
        out1b.payload_base, out1.payload_base,
        "dedupe: same payload as standing current"
    );
}
#[test]
fn ready_prefetches_forward_neighbour_and_next_acquire_promotes_it() {
    let (mut src, mut st, asset) = new_source(2);
    mark_index_ready(&mut st, asset, 0);
    mark_index_ready(&mut st, asset, 1);

    let (state0, _out0) = src.acquire_ex(&mut st, 0, 1, 0);
    assert_eq!(state0, RegionState::Ready);
    assert_eq!(
        total_leases(&st),
        2,
        "current(0) + the prefetched neighbour(1)"
    );
    assert_eq!(
        src.state(&mut st, 1),
        RegionState::Ready,
        "neighbour 1 is prefetched and already ready"
    );

    let (state1, out1) = src.acquire_ex(&mut st, 1, 1, 0);
    assert_eq!(state1, RegionState::Ready);
    let out1 = out1.expect("ready must fill out");
    assert_eq!(out1.region_index, 1);
    assert_eq!(
        total_leases(&st),
        1,
        "promotion transfers the prefetch lease into current -- no new reservation"
    );
    assert_eq!(
        src.state(&mut st, 0),
        RegionState::Unavailable,
        "old current(0) was fused away"
    );
    assert_eq!(src.state(&mut st, 1), RegionState::Ready, "current(1), promoted");
}
#[test]
fn indexed_state_is_truthful_after_jump_ahead_of_prefetch() {
    let (mut src, mut st, asset) = new_source(8);
    mark_index_ready(&mut st, asset, 0);

    let (state0, _out0) = src.acquire_ex(&mut st, 0, 1, 0);
    assert_eq!(state0, RegionState::Ready);

    let (state5, out5) = src.acquire_ex(&mut st, 5, 1, 0);
    assert_eq!(state5, RegionState::Loading);
    assert!(out5.is_none());

    assert_eq!(src.state(&mut st, 0), RegionState::Ready, "current");
    assert_eq!(
        src.state(&mut st, 5),
        RegionState::Loading,
        "pending, the jumped-to index"
    );
    assert_eq!(
        src.state(&mut st, 1),
        RegionState::Loading,
        "the ORIGINAL prefetch neighbour, still standing and untouched by the jump"
    );
    assert_eq!(
        src.state(&mut st, 6),
        RegionState::Unavailable,
        "the TRUE neighbour of 5 -- nothing tracks it, since acquire(5) was LOADING \
         (step 5 never ran) and must NOT be conflated with index 5's own Loading state"
    );
}
#[test]
fn state_matches_current_pending_prefetch_by_tracked_index() {
    let (mut src, mut st, asset) = new_source(4);
    mark_index_ready(&mut st, asset, 0);

    let (state0, _out0) = src.acquire_ex(&mut st, 0, 1, 0); // Ready(current=0), prefetch(1)=Loading
    assert_eq!(state0, RegionState::Ready);
    let (state2, _out2) = src.acquire_ex(&mut st, 2, 1, 0); // Loading(pending=2); prefetch(1) untouched
    assert_eq!(state2, RegionState::Loading);

    assert_eq!(src.state(&mut st, 0), RegionState::Ready, "current");
    assert_eq!(src.state(&mut st, 2), RegionState::Loading, "pending");
    assert_eq!(
        src.state(&mut st, 1),
        RegionState::Loading,
        "prefetch, not yet landed"
    );
    assert_eq!(src.state(&mut st, 3), RegionState::Unavailable, "tracked by no slot");

    mark_index_ready(&mut st, asset, 1);
    assert_eq!(
        src.state(&mut st, 1),
        RegionState::Ready,
        "prefetch's readiness is a LIVE re-check, not cached at acquire time"
    );
}
#[test]
fn retain_release_balance_and_close_drops_all_slots() {
    let (mut src, mut st, asset) = new_source(2);
    assert_eq!(total_leases(&st), 0, "baseline");
    mark_index_ready(&mut st, asset, 0);

    let (state, out) = src.acquire_ex(&mut st, 0, 1, 0); // Ready(current=0), prefetch(1)=Loading
    assert_eq!(state, RegionState::Ready);
    let out = out.expect("ready must fill out");
    assert_eq!(total_leases(&st), 2, "current + standing prefetch");

    src.retain(&mut st, out.lease);
    assert_eq!(total_leases(&st), 3, "retain adds an independent lease");
    src.release(&mut st, out.lease);
    assert_eq!(total_leases(&st), 2, "release drops it back");

    src.close(&mut st);
    assert_eq!(
        total_leases(&st),
        0,
        "close drops current+pending+prefetch back to baseline"
    );
}
#[test]
fn jump_ahead_supersedes_pending_without_leak() {
    let (mut src, mut st, _asset) = new_source(8);

    let (state3, out3) = src.acquire_ex(&mut st, 3, 1, 0); // not resident -> Loading, pending=3
    assert_eq!(state3, RegionState::Loading);
    assert!(out3.is_none());
    assert_eq!(total_leases(&st), 1, "one pending lease");

    let (state7, out7) = src.acquire_ex(&mut st, 7, 1, 0); // jump ahead -> Loading, pending=7
    assert_eq!(state7, RegionState::Loading);
    assert!(out7.is_none());
    assert_eq!(
        total_leases(&st),
        1,
        "the old pending(3) is released, the new pending(7) leased -- net one"
    );
    assert_eq!(
        src.state(&mut st, 3),
        RegionState::Unavailable,
        "superseded, no longer tracked"
    );
    assert_eq!(src.state(&mut st, 7), RegionState::Loading, "the new pending");
}
#[test]
fn slots_never_track_the_same_index() {
    let (mut src, mut st, asset) = new_source(8);
    mark_index_ready(&mut st, asset, 0);

    src.acquire_ex(&mut st, 0, 1, 0); // Ready(current=0), prefetch(1)=Loading
    assert_distinct(&src);

    src.acquire_ex(&mut st, 5, 1, 0); // jump ahead -> Loading(pending=5); prefetch(1) untouched
    assert_distinct(&src);

    mark_index_ready(&mut st, asset, 1);
    src.acquire_ex(&mut st, 1, 1, 0); // promote(1) -> Ready: fuses pending(5) away, fuses current(0),
    assert_distinct(&src); // prefetches(2)=Loading

    src.acquire_ex(&mut st, 2, 1, 0); // promote(2), not ready -> Loading: moves into pending, empties prefetch
    assert_distinct(&src);

    mark_index_ready(&mut st, asset, 2);
    src.acquire_ex(&mut st, 2, 1, 0); // fresh acquire (prefetch is empty) -> Ready: fuses pending(2) away,
    assert_distinct(&src); // prefetches(3)=Loading
}
#[test]
fn loading_retry_that_lands_ready_folds_into_a_single_lease() {
    let (mut src, mut st, asset) = new_source(4);

    let (state, out) = src.acquire_ex(&mut st, 1, 1, 0);
    assert_eq!(state, RegionState::Loading);
    assert!(out.is_none());
    assert_eq!(total_leases(&st), 1, "pending holds exactly one lease");

    let (state2, out2) = src.acquire_ex(&mut st, 1, 1, 0);
    assert_eq!(state2, RegionState::Loading);
    assert!(out2.is_none());
    assert_eq!(
        total_leases(&st),
        1,
        "retrying before landing must stay one lease"
    );

    mark_index_ready(&mut st, asset, 1);
    let (state3, out3) = src.acquire_ex(&mut st, 1, 1, 0);
    assert_eq!(state3, RegionState::Ready);
    let out3 = out3.expect("ready must fill out");
    assert_eq!(out3.region_index, 1);
    assert_eq!(
        total_leases(&st),
        2,
        "current(1), folded from the retained pending, plus the fresh prefetch(2)"
    );
}
#[test]
fn pending_lease_is_dropped_not_stranded_when_the_next_acquire_is_unavailable() {
    let (mut src, mut st, _asset) = new_source(4);

    let (state, out) = src.acquire_ex(&mut st, 1, 1, 0); // not resident -> Loading, pending=1
    assert_eq!(state, RegionState::Loading);
    assert!(out.is_none());
    assert_eq!(total_leases(&st), 1, "pending holds exactly one lease");

    let (state2, out2) = src.acquire_ex(&mut st, 100, 1, 0); // out of range -> Unavailable
    assert_eq!(state2, RegionState::Unavailable);
    assert!(out2.is_none());
    assert_eq!(
        total_leases(&st),
        0,
        "the outstanding pending lease is released, not stranded"
    );

    src.retain(&mut st, 0);
    src.release(&mut st, 0);
    assert_eq!(total_leases(&st), 0);
}
#[test]
fn promoted_prefetch_that_is_not_yet_ready_lands_in_pending_and_state_stays_truthful() {
    let (mut src, mut st, asset) = new_source(2);
    mark_index_ready(&mut st, asset, 0);

    let (state0, _out0) = src.acquire_ex(&mut st, 0, 1, 0);
    assert_eq!(state0, RegionState::Ready);
    assert_eq!(
        src.state(&mut st, 1),
        RegionState::Loading,
        "standing prefetch, not yet landed"
    );

    let (state1, out1) = src.acquire_ex(&mut st, 1, 1, 0);
    assert_eq!(state1, RegionState::Loading);
    assert!(out1.is_none());

    assert_eq!(src.state(&mut st, 1), RegionState::Loading);
    assert_eq!(total_leases(&st), 2, "current(0) + the promoted pending(1)");

    mark_index_ready(&mut st, asset, 1);
    assert_eq!(src.state(&mut st, 1), RegionState::Ready);

    let (state1b, out1b) = src.acquire_ex(&mut st, 1, 1, 0);
    assert_eq!(state1b, RegionState::Ready);
    let out1b = out1b.expect("ready must fill out");
    assert_eq!(out1b.region_index, 1);
    assert_eq!(
        total_leases(&st),
        1,
        "current(1) only -- old current(0) fused, pending folded, nothing further to prefetch"
    );
}

#[test]
fn playing_backwards_prefetches_the_cluster_before() {
    let (mut src, mut st, asset) = new_source(4);
    mark_index_ready(&mut st, asset, 2);
    assert_eq!(src.acquire_ex(&mut st, 2, -1, 0).0, RegionState::Ready);
    assert_eq!(src.prefetch_index(), Some(1));
    assert_eq!(src.current_index(), Some(2));
    assert_eq!(src.pending_index(), None);
    // Nothing lies before cluster 0.
    mark_index_ready(&mut st, asset, 0);
    assert_eq!(src.acquire_ex(&mut st, 0, -1, 0).0, RegionState::Ready);
    assert_eq!(total_leases(&st), 2); // the old prefetch stays
    src.close(&mut st);
    assert_eq!(total_leases(&st), 0);
}

#[test]
fn the_last_region_is_as_long_as_its_audio() {
    let (st, asset) = test_store();
    let mut st = st;
    let geo = Geometry {
        audio_data_length_bytes: 20,
        ..test_geo(2)
    };
    let mut src: TestSource =
        SampleSource::new(ManagerResidency::new(asset, CLUSTER_SIZE as u32, 2), geo);
    mark_index_ready(&mut st, asset, 1);
    let (_, out) = src.acquire_ex(&mut st, 1, 1, 7);
    assert_eq!(out.unwrap().resident_bytes, 4);
}

#[test]
fn loading_regions_are_queued_at_their_priority() {
    let (mut src, mut st, asset) = new_source(4);
    src.acquire_ex(&mut st, 1, 1, 9);
    let (mut other, other_asset) = {
        let s: TestSource = SampleSource::new(
            ManagerResidency::new(asset, CLUSTER_SIZE as u32, 4),
            test_geo(4),
        );
        (s, asset)
    };
    other.acquire_ex(&mut st, 2, 1, 3);
    let next = st.res.loader_next().unwrap();
    assert_eq!(st.res.chunk_ident(next), Some((other_asset, 2)));
    let next = st.res.loader_next().unwrap();
    assert_eq!(st.res.chunk_ident(next), Some((asset, 1)));
    assert!(st.res.loader_next().is_none());
}

#[test]
fn acquire_reports_ready_loading_unavailable_and_pins() {
    let (mut st, asset) = test_store();
    let geo = Geometry {
        audio_data_start_bytes: 0,
        audio_data_length_bytes: 16 * 8,
        cluster_size_bytes: 16,
        byte_depth: 2,
        num_channels: 1,
        raw_data_format: 0,
    };
    let mut res: ManagerResidency<Mem, NoCard> = ManagerResidency::new(
        asset,
        geo.cluster_size_bytes,
        (geo.audio_data_length_bytes / geo.cluster_size_bytes as u64) as u32,
    );
    // First acquire of index 0: not resident, so it is reserved: Loading.
    match res.acquire(&mut st, 0, 0) {
        Get::Loading(pin) => {
            assert_eq!(pin.index(), 0);
            assert!(!res.is_ready(&mut st, &pin));
            res.release_pin(&mut st, pin);
        }
        _ => panic!("expected Loading"),
    }
    // Mark it ready through the manager, then a fresh acquire hits Ready.
    mark_index_ready(&mut st, asset, 0);
    match res.acquire(&mut st, 0, 0) {
        Get::Ready(pin) => {
            assert_eq!(pin.index(), 0);
            assert!(res.is_ready(&mut st, &pin));
            assert_ne!(res.token(&mut st, &pin), 0);
            res.release_pin(&mut st, pin);
        }
        _ => panic!("expected Ready"),
    }
    // Out-of-range index -> Unavailable (num_clusters guard).
    assert!(matches!(res.acquire(&mut st, 100, 0), Get::Unavailable));
    assert_eq!(res.num_clusters(), 8);
    assert_eq!(total_leases(&st), 0);
}

type Pool = SourcePool<Mem, NoCard>;

#[test]
fn open_close_pool_is_alloc_free_and_balanced() {
    let (mut st, asset) = test_store();
    let geo = test_geo(4);
    let mut pool: Pool = SourcePool::new();

    let src1 = pool.deluge_sample_source_open(Some(asset), geo);
    assert_ne!(src1, 0, "first open must succeed");
    let src2 = pool.deluge_sample_source_open(Some(asset), geo);
    assert_ne!(src2, 0, "second open must succeed");
    assert_ne!(
        src1, src2,
        "two concurrently open sources must claim distinct slots"
    );

    pool.deluge_sample_source_close(&mut st, src1);
    pool.deluge_sample_source_close(&mut st, src2);

    for _ in 0..8 {
        let s = pool.deluge_sample_source_open(Some(asset), geo);
        assert_ne!(s, 0, "close must return the slot to the pool for reuse");
        pool.deluge_sample_source_close(&mut st, s);
    }
}

#[test]
fn abi_acquire_ex_matches_cursor_over_ready_index() {
    let (mut st, asset) = test_store();
    mark_index_ready(&mut st, asset, 0);
    let mut pool: Pool = SourcePool::new();
    let src = pool.deluge_sample_source_open(Some(asset), test_geo(4));
    assert_ne!(src, 0);

    let (state, out) = pool.deluge_sample_region_acquire_ex(&mut st, src, 0, 1, 0);
    assert_eq!(state, DelugeRegionState::Ready);
    let out = out.unwrap();
    assert_ne!(out.payload_base, 0, "READY must fill payload_base");
    assert_eq!(out.resident_bytes, CLUSTER_SIZE as u32);
    assert_ne!(out.lease, 0, "READY must mint a non-zero lease token");

    let bytes = bytes_at(&st, out.payload_base);
    for b in 0..CLUSTER_SIZE {
        assert_eq!(bytes[b], b as u8, "ramp byte {b} of cluster 0");
    }

    let before = total_leases(&st);
    pool.deluge_sample_region_retain(&mut st, out.lease);
    assert_eq!(total_leases(&st), before + 1);
    pool.deluge_sample_region_release(&mut st, out.lease);
    assert_eq!(total_leases(&st), before);

    assert_eq!(
        pool.deluge_sample_region_state(&mut st, src, 0),
        DelugeRegionState::Ready
    );
    assert_eq!(
        pool.deluge_sample_region_state(&mut st, src, 1),
        DelugeRegionState::Loading
    );
    let (ok, again) = pool.deluge_sample_region_acquire(&mut st, src, 0, 1, 0);
    assert!(ok);
    assert_eq!(again, Some(out));
    let (ok, none) = pool.deluge_sample_region_acquire(&mut st, src, 3, 1, 0);
    assert!(!ok && none.is_none());

    pool.deluge_sample_source_close(&mut st, src);
    assert_eq!(total_leases(&st), 0);
}

#[test]
fn acquire_ex_with_null_src_is_unavailable_and_does_not_deref() {
    let (mut st, _asset) = test_store();
    let mut pool: Pool = SourcePool::new();
    let (state, out) = pool.deluge_sample_region_acquire_ex(&mut st, 0, 0, 1, 0);
    assert_eq!(state, DelugeRegionState::Unavailable);
    assert!(out.is_none(), "out must be left untouched on UNAVAILABLE");
}

#[test]
fn null_and_zero_tolerant_everywhere_else() {
    let (mut st, _asset) = test_store();
    let mut pool: Pool = SourcePool::new();
    assert_eq!(
        pool.deluge_sample_region_state(&mut st, 0, 0),
        DelugeRegionState::Unavailable
    );
    pool.deluge_sample_source_close(&mut st, 0);
    pool.deluge_sample_region_retain(&mut st, 0);
    pool.deluge_sample_region_release(&mut st, 0);
    assert_eq!(pool.deluge_sample_source_open(None, test_geo(4)), 0);
    assert_eq!(total_leases(&st), 0);
}

#[test]
fn the_pool_runs_out() {
    let (mut st, asset) = test_store();
    let mut pool: Pool = SourcePool::new();
    for i in 0..POOL_SIZE as u32 {
        assert_eq!(
            pool.deluge_sample_source_open(Some(asset), test_geo(4)),
            i + 1
        );
    }
    assert_eq!(pool.deluge_sample_source_open(Some(asset), test_geo(4)), 0);
    pool.deluge_sample_source_close(&mut st, 5);
    assert_eq!(pool.deluge_sample_source_open(Some(asset), test_geo(4)), 5);
}

#[test]
fn clusters_are_counted_by_the_length() {
    assert_eq!(num_clusters_for(&test_geo(4)), 4);
    let mut g = test_geo(4);
    g.audio_data_length_bytes += 1;
    assert_eq!(num_clusters_for(&g), 5);
    g.audio_data_start_bytes = 15; // does not count
    assert_eq!(num_clusters_for(&g), 5);
    g.audio_data_length_bytes = u64::MAX;
    assert_eq!(num_clusters_for(&g), u32::MAX);
    g.audio_data_length_bytes = 0;
    assert_eq!(num_clusters_for(&g), u32::MAX);
    g.audio_data_length_bytes = 0x8FFF_FFFF_FFFF_FFFF;
    assert_eq!(num_clusters_for(&g), u32::MAX);
    g.cluster_size_bytes = 0;
    assert_eq!(num_clusters_for(&g), 0);
}

#[test]
fn stale_tokens_pin_nothing() {
    let (mut st, asset) = test_store();
    mark_index_ready(&mut st, asset, 0);
    let p = st.res.mgr.peek(asset, 0);
    let token = st.res.pin_token(Chunk::from_ptr(p).unwrap());
    st.res.evict_chunk(p);
    mark_index_ready(&mut st, asset, 1); // takes the same slot
    st.res.retain_token(token);
    assert_eq!(total_leases(&st), 0);
}

#[test]
fn asking_for_the_state_changes_nothing() {
    let (mut src, mut st, asset) = new_source(4);
    mark_index_ready(&mut st, asset, 0);
    assert_eq!(src.acquire_ex(&mut st, 0, 1, 0).0, RegionState::Ready);
    let leases = total_leases(&st);
    for _ in 0..3 {
        assert_eq!(src.state(&mut st, 0), RegionState::Ready);
        assert_eq!(src.state(&mut st, 1), RegionState::Loading);
        assert_eq!(src.state(&mut st, 2), RegionState::Unavailable);
    }
    assert_eq!(total_leases(&st), leases);
    assert_eq!(src.current_index(), Some(0));
    assert_eq!(src.pending_index(), None);
    assert_eq!(src.prefetch_index(), Some(1));
}

#[test]
fn acquiring_again_gives_the_same_lease() {
    let (mut src, mut st, asset) = new_source(4);
    mark_index_ready(&mut st, asset, 0);
    let first = src.acquire_ex(&mut st, 0, 1, 0);
    let leases = total_leases(&st);
    let second = src.acquire_ex(&mut st, 0, 1, 0);
    assert_eq!(second, first);
    assert_eq!(second.0, RegionState::Ready);
    assert_eq!(total_leases(&st), leases);
    assert_eq!(src.prefetch_index(), Some(1));
}
