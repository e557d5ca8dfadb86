use deluge_rust::fill::context::{deluge_streaming_set_fill_context, FillContext};
use deluge_rust::fill::fill_logic::{ConvertCall, Converted, SampleConvert, StitchCall, Stitched};
use deluge_rust::fill::native::{Awaited, Host, Streaming};
use deluge_rust::reader::abi::{
    deluge_sample_reserve_asset, deluge_sample_reserve_close, deluge_sample_reserve_covered_count,
    deluge_sample_reserve_covered_index, deluge_sample_reserve_leased_count,
    deluge_sample_reserve_move, deluge_sample_reserve_open,
};
use deluge_rust::reader::reservation::{LoadMode, Reservation};
use deluge_rust::resource::facade::{Backend, Resource};
use deluge_rust::resource::types::{Build, Notice, Rank, RankInput, Source, BACKING_SLAB};
use std::ops::Range;

/// Memory is numbers: a slab of slots that is never used up.
struct Mem {
    next: usize,
}

impl Backend for Mem {
    fn evict_rank(&mut self, input: RankInput) -> Rank {
        (0, input.cost as u64, input.recency)
    }
    fn heap_alloc(&mut self, _size: usize, _align: usize) -> usize {
        self.next += 0x10000;
        self.next
    }
    fn heap_free(&mut self, _p: usize) {}
    fn slab_acquire(&mut self, _slab: usize) -> usize {
        self.next += 0x10000;
        self.next
    }
    fn slab_release(&mut self, _slab: usize, _p: usize) -> bool {
        true
    }
    fn materialize(&mut self, _build: Build, _len: usize) -> bool {
        false
    }
    fn construct(&mut self, _build: Build) {}
    fn notify(&mut self, _notice: Notice) {}
}

/// A card whose byte at `i` is `i`, over samples that need no conversion.
struct Card {
    force_read_failure: bool,
    fail_at_byte_offset: Option<u32>,
    reads: Vec<(u32, u32, u32)>,
    wakes: u32,
    /// A task makes the reads, and the caller may wait for it or not.
    task: bool,
    may_wait: bool,
    awaited: u32,
}

impl SampleConvert for Card {
    fn convert_cluster(call: ConvertCall) -> Converted {
        Converted {
            cluster: call.cluster,
            first_three_bytes: call.first_three_bytes,
        }
    }

    /// Each cluster's first seven bytes are repeated behind the one before.
    fn stitch_boundaries(call: StitchCall) -> Stitched {
        let cs = call.cluster_size;
        let mut span = call.span;
        let next = call.next.map(|n| {
            span[cs..cs + 7].copy_from_slice(&n.head);
            (n.head, n.start_boundary_converted)
        });
        let prev = call.prev.map(|p| {
            let mut tail = p.tail;
            tail[4..11].copy_from_slice(&span[0..7]);
            (tail, p.end_boundary_converted)
        });
        Stitched {
            span,
            start_converted: call.start_converted,
            end_converted: call.end_converted,
            prev,
            next,
        }
    }
}

impl Host for Card {
    fn efatfs_read_at(&mut self, handle: u32, byte_offset: u32, count: u32) -> (bool, Vec<u8>) {
        self.reads.push((handle, byte_offset, count));
        if self.force_read_failure || self.fail_at_byte_offset == Some(byte_offset) {
            return (false, Vec::new());
        }
        let bytes = (0..count).map(|i| byte_offset.wrapping_add(i) as u8);
        (true, bytes.collect())
    }

    fn async_active(&mut self) -> bool {
        self.task
    }

    fn efatfs_read_awaited(
        &mut self,
        handle: u32,
        byte_offset: u32,
        count: u32,
    ) -> Awaited {
        self.awaited += 1;
        if self.may_wait {
            let (ok, data) = self.efatfs_read_at(handle, byte_offset, count);
            Awaited::Read(ok, data)
        } else {
            Awaited::Later(7)
        }
    }

    fn signal_fill(&mut self) {
        self.wakes += 1;
    }
}

type Store = Streaming<Mem, Card>;

/// A cache with one asset whose context is `ctx`.
fn harness(ctx: FillContext) -> (Store, u32) {
    let res = Resource::create(Mem { next: 0 }, 4, 16, true).unwrap();
    let mut st = Streaming::new(
        res,
        Card {
            force_read_failure: false,
            fail_at_byte_offset: None,
            reads: Vec::new(),
            wakes: 0,
            task: false,
            may_wait: true,
            awaited: 0,
        },
    );
    st.res.mgr.set_slab(0x5);
    let asset = st.res.mgr.define_asset(
        0,
        Source {
            materialize: None,
            on_evict: None,
            construct: Some(1),
            ctx: 0,
            cost: 1,
            backing: BACKING_SLAB,
        },
    );
    deluge_streaming_set_fill_context(&mut st.contexts, asset, ctx);
    (st, asset)
}

const CLUSTER_SIZE_BYTES: u32 = 32768;
const CLUSTER_SIZE_MAGNITUDE: u32 = 15; // 2^15 == 32768

struct TestHarness {
    asset: u32,
    st: Store,
    frame_stride: u32,
    first_with_data: u32,
}

impl TestHarness {
    /// A sample whose audio is exactly the clusters `clusters`.
    fn with_audio_data_clusters(clusters: Range<u32>, frame_stride: u32) -> Self {
        let (st, asset) = harness(FillContext {
            efatfs_handle: 0,
            audio_data_start_pos_bytes: clusters.start * CLUSTER_SIZE_BYTES,
            audio_data_length_bytes: (clusters.end - clusters.start) as u64
                * CLUSTER_SIZE_BYTES as u64,
            first_cluster_index_with_no_audio_data: clusters.end as i32,
            cluster_size: CLUSTER_SIZE_BYTES,
            cluster_size_magnitude: CLUSTER_SIZE_MAGNITUDE,
            raw_data_format: 0,
            byte_depth: 2,
            num_channels: (frame_stride / 2) as u8,
        });
        TestHarness {
            asset,
            st,
            frame_stride,
            first_with_data: clusters.start,
        }
    }

    /// The frame at the first byte of cluster `c`.
    fn frame_in_cluster(&self, c: u32) -> u64 {
        let target_byte = c as u64 * CLUSTER_SIZE_BYTES as u64;
        let start_byte = self.first_with_data as u64 * CLUSTER_SIZE_BYTES as u64;
        (target_byte - start_byte) / self.frame_stride as u64
    }

    fn open(&mut self, cluster: u32, direction: i8, mode: LoadMode) -> Reservation {
        let frame = self.frame_in_cluster(cluster);
        Reservation::open(&mut self.st, self.asset, frame, direction, mode)
    }

    /// The leases on the clusters of `indices` that are resident.
    fn total_leases_over(&mut self, indices: &[u32]) -> u32 {
        let mut n = 0;
        for &index in indices {
            if let Some(chunk) = self.st.res.peek(self.asset, index) {
                let slot = self.st.res.slot_of(chunk);
                n += self.st.res.lease_count_by_slot(slot);
            }
        }
        n
    }

    /// How often a cluster was requested.
    fn acquire_generation(&self) -> u64 {
        self.st.res.mgr.stats_snapshot().requests
    }

    fn is_ready_at(&mut self, index: u32) -> bool {
        match self.st.res.peek(self.asset, index) {
            Some(chunk) => self.st.res.is_ready(chunk),
            None => false,
        }
    }

    fn evict_all(&mut self) {
        for index in 0..32 {
            if let Some(chunk) = self.st.res.peek(self.asset, index) {
                self.st.res.evict_chunk(chunk.as_ptr());
            }
        }
    }
}

#[test]
fn open_forward_pins_two_units_from_the_marker_cluster() {
    let mut h = TestHarness::with_audio_data_clusters(2..6, 4);
    let res = h.open(3, 1, LoadMode::Enqueue);
    assert_eq!(res.covered_indices(), &[3, 4]);
}

#[test]
fn open_reverse_pins_two_units_descending() {
    let mut h = TestHarness::with_audio_data_clusters(2..6, 4);
    let res = h.open(4, -1, LoadMode::Enqueue);
    assert_eq!(res.covered_indices(), &[4, 3]);
}

#[test]
fn open_clamps_forward_at_first_cluster_with_no_audio_data() {
    let mut h = TestHarness::with_audio_data_clusters(2..6, 4);
    let res = h.open(5, 1, LoadMode::Enqueue);
    assert_eq!(res.covered_indices(), &[5]); // 6 is out of range, dropped
}

#[test]
fn open_clamps_reverse_at_first_cluster_with_audio_data() {
    let mut h = TestHarness::with_audio_data_clusters(2..6, 4);
    let res = h.open(2, -1, LoadMode::Enqueue);
    assert_eq!(res.covered_indices(), &[2]); // 1 is out of range, dropped
}

#[test]
fn open_takes_a_lease_per_covered_unit_and_close_releases_all() {
    let mut h = TestHarness::with_audio_data_clusters(2..6, 4);
    let res = h.open(3, 1, LoadMode::Enqueue);
    assert_eq!(h.total_leases_over(&[3, 4]), 2);
    res.close(&mut h.st);
    assert_eq!(h.total_leases_over(&[3, 4]), 0);
}

#[test]
fn open_with_no_active_manager_is_inert() {
    let res = deluge_sample_reserve_open::<Mem, Card>(None, 0, 0, 1, LoadMode::Enqueue);
    assert!(res.covered_indices().is_empty());
}

#[test]
fn open_over_an_unregistered_asset_is_inert() {
    let mut h = TestHarness::with_audio_data_clusters(2..6, 4);
    let never_registered_asset = h.asset + 1000;
    let res = Reservation::open(
        &mut h.st,
        never_registered_asset,
        0,
        1,
        LoadMode::Enqueue,
    );
    assert!(res.covered_indices().is_empty());
}

#[test]
fn move_within_the_same_head_unit_is_a_no_op() {
    let mut h = TestHarness::with_audio_data_clusters(2..6, 4);
    let mut res = h.open(3, 1, LoadMode::Enqueue);
    assert_eq!(res.covered_indices(), &[3, 4]);

    let before = h.acquire_generation();
    let frame = h.frame_in_cluster(3) + 10; // still cluster 3
    res.reanchor(&mut h.st, h.asset, frame, 1, LoadMode::Enqueue);
    assert_eq!(res.covered_indices(), &[3, 4]);
    assert_eq!(
        h.acquire_generation(),
        before,
        "no lease churn when head unit unchanged"
    );
}

#[test]
fn move_across_a_unit_boundary_rebuilds_the_window() {
    let mut h = TestHarness::with_audio_data_clusters(2..6, 4);
    let mut res = h.open(3, 1, LoadMode::Enqueue);
    assert_eq!(res.covered_indices(), &[3, 4]);

    let frame = h.frame_in_cluster(4);
    res.reanchor(&mut h.st, h.asset, frame, 1, LoadMode::Enqueue);
    assert_eq!(res.covered_indices(), &[4, 5]);
    assert_eq!(h.total_leases_over(&[3]), 0, "old head released");
    assert_eq!(h.total_leases_over(&[4, 5]), 2, "new window pinned");
}

#[test]
fn move_to_a_different_asset_rebinds_and_releases_the_old_pins() {
    let mut h = TestHarness::with_audio_data_clusters(2..6, 4);
    let mut res = h.open(3, 1, LoadMode::Enqueue);
    assert_eq!(res.covered_indices(), &[3, 4]);
    assert_eq!(h.total_leases_over(&[3, 4]), 2, "opening window pinned");

    // Another asset, without a context.
    let other_asset = h.asset + 1;
    let frame = h.frame_in_cluster(3);
    res.reanchor(&mut h.st, other_asset, frame, 1, LoadMode::Enqueue);

    assert_eq!(res.asset(), other_asset, "rebound to the new Asset");
    assert_eq!(
        h.total_leases_over(&[3, 4]),
        0,
        "every pin on the OLD Asset released"
    );
    assert!(
        res.covered_indices().is_empty(),
        "no stale coverage carried across the rebind"
    );
}

#[test]
fn load_now_materializes_where_enqueue_does_not() {
    let mut h = TestHarness::with_audio_data_clusters(2..6, 4);
    h.evict_all(); // ensure nothing resident

    let enq = h.open(3, 1, LoadMode::Enqueue);
    assert!(!h.is_ready_at(3), "enqueue does not fill");
    enq.close(&mut h.st);

    let now = h.open(3, 1, LoadMode::Now);
    assert!(h.is_ready_at(3), "load-now fills synchronously");
    now.close(&mut h.st);
    assert_eq!(h.st.host.reads, vec![(0, 3 * 32768, 32768), (0, 4 * 32768, 32768)]);
}

#[test]
fn open_enqueue_schedules_covered_clusters_on_the_loader() {
    let mut h = TestHarness::with_audio_data_clusters(2..6, 4);
    h.evict_all();

    let res = h.open(3, 1, LoadMode::Enqueue);
    assert_eq!(res.covered_indices(), &[3, 4]);

    let mut scheduled: Vec<(u32, u32)> = Vec::new();
    while let Some(chunk) = h.st.res.loader_next() {
        scheduled.push(
            h.st.res
                .chunk_ident(chunk)
                .expect("popped chunk is resident"),
        );
    }
    scheduled.sort_unstable();
    assert_eq!(
        scheduled,
        vec![(h.asset, 3), (h.asset, 4)],
        "both covered (miss) clusters must have been enqueued on the real loader queue"
    );
    assert!(
        h.st.res.loader_next().is_none(),
        "the loader queue must be empty once every scheduled chunk has been popped"
    );
    assert_eq!(h.st.host.wakes, 2);
    res.close(&mut h.st);
}

#[test]
fn a_failed_fill_is_given_up_or_queued() {
    let mut h = TestHarness::with_audio_data_clusters(2..6, 4);
    h.st.host.force_read_failure = true;
    let now = h.open(3, 1, LoadMode::Now);
    assert_eq!(now.covered_indices(), &[3, 4]);
    assert_eq!(now.num_leased(), 0);
    assert_eq!(h.total_leases_over(&[3, 4]), 0);
    now.close(&mut h.st);
    assert_eq!(h.st.host.wakes, 0);

    h.st.host.fail_at_byte_offset = Some(4 * 32768);
    h.st.host.force_read_failure = false;
    let later = h.open(3, 1, LoadMode::NowOrEnqueue);
    assert_eq!(later.num_leased(), 2);
    assert!(h.is_ready_at(3) && !h.is_ready_at(4));
    assert_eq!(h.st.host.wakes, 1);
    let next = h.st.res.loader_next().unwrap();
    assert_eq!(h.st.res.chunk_ident(next), Some((h.asset, 4)));
    later.close(&mut h.st);
    assert_eq!(h.total_leases_over(&[3, 4]), 0);
}

#[test]
fn ready_clusters_are_leased_without_a_read() {
    let mut h = TestHarness::with_audio_data_clusters(2..6, 4);
    let a = h.open(3, 1, LoadMode::Now);
    let reads = h.st.host.reads.len();
    let b = h.open(4, -1, LoadMode::Now);
    assert_eq!(h.st.host.reads.len(), reads);
    assert_eq!(h.total_leases_over(&[3, 4]), 4);
    a.close(&mut h.st);
    b.close(&mut h.st);
}

#[test]
fn calls_reach_the_reservation() {
    let mut h = TestHarness::with_audio_data_clusters(2..6, 4);
    let frame = h.frame_in_cluster(5);
    let mut res =
        deluge_sample_reserve_open(Some(&mut h.st), h.asset, frame, 1, LoadMode::Enqueue);
    assert_eq!(deluge_sample_reserve_asset(Some(&res)), h.asset);
    assert_eq!(deluge_sample_reserve_covered_count(Some(&res)), 1);
    assert_eq!(deluge_sample_reserve_leased_count(Some(&res)), 1);
    assert_eq!(deluge_sample_reserve_covered_index(Some(&res), 0), 5);
    assert_eq!(deluge_sample_reserve_covered_index(Some(&res), 1), u32::MAX);
    let frame = h.frame_in_cluster(2);
    deluge_sample_reserve_move(&mut res, &mut h.st, h.asset, frame, 1, LoadMode::Enqueue);
    assert_eq!(res.covered_indices(), &[2, 3]);
    deluge_sample_reserve_close(Some(res), &mut h.st);
    assert_eq!(h.total_leases_over(&[2, 3, 5]), 0);
    deluge_sample_reserve_close(None, &mut h.st);
    assert_eq!(deluge_sample_reserve_covered_count(None), 0);
    assert_eq!(deluge_sample_reserve_leased_count(None), 0);
    assert_eq!(deluge_sample_reserve_covered_index(None, 0), u32::MAX);
    assert_eq!(deluge_sample_reserve_asset(None), u32::MAX);
}
