use deluge_rust::fill::context::{deluge_streaming_set_fill_context, FillContext};
use deluge_rust::fill::fill_logic::{
    begin, ConvertCall, Converted, SampleConvert, StitchCall, Stitched, UNKNOWN_LENGTH_SENTINEL,
};
use deluge_rust::fill::native::{Awaited, Host, Streaming, geometry_error, to_fill_geometry};
use deluge_rust::harness::mapping;
use deluge_rust::reader::sample_reader::{geometry_from_context, locate};
use deluge_rust::resource::facade::{Backend, Chunk, Resource};
use deluge_rust::resource::types::{Build, Notice, Rank, RankInput, Source, BACKING_SLAB};
use deluge_rust::source::geometry::resident_bytes_for;

/// Memory is numbers: a slab of slots that is never used up.
struct Mem {
    next: usize,
}

impl Backend for Mem {
    fn evict_rank(&mut self, input: RankInput) -> Rank {
        (0, input.cost as u64, input.recency)
    }
    fn heap_alloc(&mut self, _size: usize, _align: usize) -> usize {
        self.next += 0x10000;
        self.next
    }
    fn heap_free(&mut self, _p: usize) {}
    fn slab_acquire(&mut self, _slab: usize) -> usize {
        self.next += 0x10000;
        self.next
    }
    fn slab_release(&mut self, _slab: usize, _p: usize) -> bool {
        true
    }
    fn materialize(&mut self, _build: Build, _len: usize) -> bool {
        false
    }
    fn construct(&mut self, _build: Build) {}
    fn notify(&mut self, _notice: Notice) {}
}

/// A card whose byte at `i` is `i`, over samples that need no conversion.
struct Card {
    force_read_failure: bool,
    fail_at_byte_offset: Option<u32>,
    reads: Vec<(u32, u32, u32)>,
    wakes: u32,
    /// A task makes the reads, and the caller may wait for it or not.
    task: bool,
    may_wait: bool,
    awaited: u32,
}

impl SampleConvert for Card {
    fn convert_cluster(call: ConvertCall) -> Converted {
        Converted {
            cluster: call.cluster,
            first_three_bytes: call.first_three_bytes,
        }
    }

    /// Each cluster's first seven bytes are repeated behind the one before.
    fn stitch_boundaries(call: StitchCall) -> Stitched {
        let cs = call.cluster_size;
        let mut span = call.span;
        let next = call.next.map(|n| {
            span[cs..cs + 7].copy_from_slice(&n.head);
            (n.head, n.start_boundary_converted)
        });
        let prev = call.prev.map(|p| {
            let mut tail = p.tail;
            tail[4..11].copy_from_slice(&span[0..7]);
            (tail, p.end_boundary_converted)
        });
        Stitched {
            span,
            start_converted: call.start_converted,
            end_converted: call.end_converted,
            prev,
            next,
        }
    }
}

impl Host for Card {
    fn efatfs_read_at(&mut self, handle: u32, byte_offset: u32, count: u32) -> (bool, Vec<u8>) {
        self.reads.push((handle, byte_offset, count));
        if self.force_read_failure || self.fail_at_byte_offset == Some(byte_offset) {
            return (false, Vec::new());
        }
        let bytes = (0..count).map(|i| byte_offset.wrapping_add(i) as u8);
        (true, bytes.collect())
    }

    fn async_active(&mut self) -> bool {
        self.task
    }

    fn efatfs_read_awaited(
        &mut self,
        handle: u32,
        byte_offset: u32,
        count: u32,
    ) -> Awaited {
        self.awaited += 1;
        if self.may_wait {
            let (ok, data) = self.efatfs_read_at(handle, byte_offset, count);
            Awaited::Read(ok, data)
        } else {
            Awaited::Later(7)
        }
    }

    fn signal_fill(&mut self) {
        self.wakes += 1;
    }
}

type Store = Streaming<Mem, Card>;

/// A cache with one asset whose context is `ctx`.
fn harness(ctx: FillContext) -> (Store, u32) {
    let res = Resource::create(Mem { next: 0 }, 4, 16, true).unwrap();
    let mut st = Streaming::new(
        res,
        Card {
            force_read_failure: false,
            fail_at_byte_offset: None,
            reads: Vec::new(),
            wakes: 0,
            task: false,
            may_wait: true,
            awaited: 0,
        },
    );
    st.res.mgr.set_slab(0x5);
    let asset = st.res.mgr.define_asset(
        0,
        Source {
            materialize: None,
            on_evict: None,
            construct: Some(1),
            ctx: 0,
            cost: 1,
            backing: BACKING_SLAB,
        },
    );
    deluge_streaming_set_fill_context(&mut st.contexts, asset, ctx);
    (st, asset)
}

fn context() -> FillContext {
    FillContext {
        efatfs_handle: 77,
        audio_data_start_pos_bytes: 44,
        audio_data_length_bytes: 1200,
        first_cluster_index_with_no_audio_data: 3,
        cluster_size: 512,
        cluster_size_magnitude: 9,
        raw_data_format: 0,
        byte_depth: 2,
        num_channels: 1,
    }
}

fn ramp(from: u32, n: u32) -> Vec<u8> {
    (from..from + n).map(|i| i as u8).collect()
}

#[test]
fn a_descriptor_says_where_and_how_much_to_read() {
    let (mut st, asset) = harness(context());
    let lease = st.request(asset, 2, 512).unwrap();
    let d = st.native_begin(lease.chunk());
    // 44 + 1200 - 1024 = 220 bytes are left: one sector.
    assert!(d.ok);
    assert_eq!((d.handle, d.byte_offset, d.num_sectors), (77, 1024, 1));
    assert_eq!(d.dest, st.chunks.payload(lease.chunk().as_ptr()));
    let past = st.request(asset, 3, 512).unwrap();
    assert_eq!(st.native_begin(past.chunk()), geometry_error());
    assert!(!st.fill_now(past.chunk()));
    assert!(st.host.reads.is_empty());
}

#[test]
fn what_is_not_known_cannot_be_read() {
    let (mut st, asset) = harness(context());
    let nobody = Chunk::from_ptr(0x1234).unwrap();
    assert!(!st.native_begin(nobody).ok);
    assert!(!st.native_finish(nobody, true));
    // A resident chunk of an asset without a context.
    let other = st.res.mgr.define_asset(
        0,
        Source {
            materialize: None,
            on_evict: None,
            construct: Some(1),
            ctx: 0,
            cost: 1,
            backing: BACKING_SLAB,
        },
    );
    let lease = st.request(other, 0, 512).unwrap();
    assert!(!st.native_begin(lease.chunk()).ok);
    assert!(!st.native_finish(lease.chunk(), true));
    // A chunk that was never constructed.
    let p = st.res.request_ptr(asset, 0, 512);
    assert!(!st.native_begin(Chunk::from_ptr(p).unwrap()).ok);
    assert!(!st.fill_now(Chunk::from_ptr(p).unwrap()));
}

#[test]
fn a_failed_read_leaves_the_chunk_unready() {
    let (mut st, asset) = harness(context());
    let lease = st.request(asset, 0, 512).unwrap();
    assert!(!st.native_finish(lease.chunk(), false));
    st.host.force_read_failure = true;
    assert!(!st.fill_now(lease.chunk()));
    assert!(!st.res.is_ready(lease.chunk()));
    assert!(!st.chunks.loaded(lease.chunk().as_ptr()));
    assert_eq!(st.host.reads, vec![(77, 0, 512)]);
}

#[test]
fn a_filled_chunk_is_loaded_and_ready_and_keeps_its_leases() {
    let (mut st, asset) = harness(context());
    let leases: Vec<_> = (0..3).map(|i| st.request(asset, i, 512).unwrap()).collect();
    for l in &leases {
        assert!(st.fill_now(l.chunk()));
        assert!(st.res.is_ready(l.chunk()));
        assert!(st.chunks.loaded(l.chunk().as_ptr()));
    }
    for (i, l) in leases.iter().enumerate() {
        let slot = st.res.slot_of(l.chunk());
        assert_eq!(st.res.lease_count_by_slot(slot), 1, "cluster {i}");
    }
    assert_eq!(
        st.host.reads,
        vec![(77, 0, 512), (77, 512, 512), (77, 1024, 512)]
    );
    // Each chunk's slack holds the start of the next, whichever was filled first.
    let b0 = st.chunks.bytes(leases[0].chunk().as_ptr()).unwrap();
    assert_eq!(*b0, ramp(0, 519));
    let b1 = st.chunks.bytes(leases[1].chunk().as_ptr()).unwrap();
    assert_eq!(*b1, ramp(512, 519));
    let b2 = st.chunks.bytes(leases[2].chunk().as_ptr()).unwrap();
    assert_eq!(b2[..512], ramp(1024, 512));
    assert_eq!(b2[512..], [0; 7]);
}

#[test]
fn neighbours_that_are_not_ready_take_no_part() {
    let (mut st, asset) = harness(context());
    let a = st.request(asset, 0, 512).unwrap();
    let b = st.request(asset, 1, 512).unwrap();
    assert!(st.fill_now(a.chunk()));
    assert_eq!(st.chunks.bytes(a.chunk().as_ptr()).unwrap()[512..], [0; 7]);
    assert_eq!(st.chunks.bytes(b.chunk().as_ptr()).unwrap()[..], [0; 519]);
}

#[test]
fn requesting_again_keeps_what_was_read() {
    let (mut st, asset) = harness(context());
    let a = st.request(asset, 0, 512).unwrap();
    assert!(st.fill_now(a.chunk()));
    let b = st.request(asset, 0, 512).unwrap();
    assert_eq!(a.chunk(), b.chunk());
    assert_eq!(
        st.chunks.bytes(b.chunk().as_ptr()).unwrap()[..512],
        ramp(0, 512)
    );
}

#[test]
fn fills_read_the_sectors_that_the_audio_needs() {
    for length in [1u64, 400, 468, 469, 980, 981, 1200, 1492] {
        let ctx = FillContext {
            audio_data_length_bytes: length,
            ..context()
        };
        let fill = to_fill_geometry(&ctx);
        let geo = geometry_from_context(ctx);
        for index in 0..5 {
            let r = begin(index, &fill);
            let resident = resident_bytes_for(index, &geo);
            assert_eq!(r.ok, resident > 0);
            if r.ok {
                assert_eq!(r.num_sectors, resident.div_ceil(512));
                assert_eq!(r.byte_offset, index * 512);
            }
        }
    }
    let open_ended = FillContext {
        audio_data_length_bytes: UNKNOWN_LENGTH_SENTINEL,
        ..context()
    };
    assert_eq!(begin(9, &to_fill_geometry(&open_ended)).num_sectors, 1);
}

#[test]
fn readers_and_the_harness_map_frames_alike() {
    let ctx = FillContext {
        byte_depth: 3,
        num_channels: 2,
        ..context()
    };
    let geo = mapping::Geometry {
        audio_data_start_bytes: 44,
        audio_data_length_bytes: 1200,
        cluster_size_bytes: 512,
        byte_depth: 3,
        num_channels: 2,
    };
    for frame in 0..geo.total_frames() {
        let (cluster, offset, _) = locate(frame, &geometry_from_context(ctx)).unwrap();
        assert_eq!(mapping::locate(frame, &geo), (cluster, offset));
    }
}
