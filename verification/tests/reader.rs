use deluge_rust::fill::context::{deluge_streaming_set_fill_context, FillContext};
use deluge_rust::fill::fill_logic::{ConvertCall, Converted, SampleConvert, StitchCall, Stitched};
use deluge_rust::fill::native::{Awaited, Host, Streaming};
use deluge_rust::reader::abi::{
    deluge_sample_invalidate, deluge_sample_peek, deluge_sample_read, deluge_sample_reader_advance,
    deluge_sample_reader_close, deluge_sample_reader_ok, deluge_sample_reader_open,
    deluge_sample_reader_seek, deluge_sample_reader_window,
};
use deluge_rust::reader::sample_reader::{
    frame_stride_of, geometry_from_context, invalidate, locate, peek, ReadHint, Reader, Window,
    UNKNOWN_LENGTH_SENTINEL,
};
use deluge_rust::resource::facade::{Backend, Resource};
use deluge_rust::resource::types::{Build, Notice, Rank, RankInput, Source, BACKING_SLAB};

/// Memory is numbers: a slab of slots that is never used up.
struct Mem {
    next: usize,
}

impl Backend for Mem {
    fn evict_rank(&mut self, input: RankInput) -> Rank {
        (0, input.cost as u64, input.recency)
    }
    fn heap_alloc(&mut self, _size: usize, _align: usize) -> usize {
        self.next += 0x10000;
        self.next
    }
    fn heap_free(&mut self, _p: usize) {}
    fn slab_acquire(&mut self, _slab: usize) -> usize {
        self.next += 0x10000;
        self.next
    }
    fn slab_release(&mut self, _slab: usize, _p: usize) -> bool {
        true
    }
    fn materialize(&mut self, _build: Build, _len: usize) -> bool {
        false
    }
    fn construct(&mut self, _build: Build) {}
    fn notify(&mut self, _notice: Notice) {}
}

/// A card whose byte at `i` is `i`, over samples that need no conversion.
struct Card {
    force_read_failure: bool,
    fail_at_byte_offset: Option<u32>,
    reads: Vec<(u32, u32, u32)>,
    wakes: u32,
    /// A task makes the reads, and the caller may wait for it or not.
    task: bool,
    may_wait: bool,
    /// So many bytes are missing at the end of each read.
    short_by: u32,
    awaited: u32,
}

impl SampleConvert for Card {
    fn convert_cluster(call: ConvertCall) -> Converted {
        Converted {
            cluster: call.cluster,
            first_three_bytes: call.first_three_bytes,
        }
    }

    /// Each cluster's first seven bytes are repeated behind the one before.
    fn stitch_boundaries(call: StitchCall) -> Stitched {
        let cs = call.cluster_size;
        let mut span = call.span;
        let next = call.next.map(|n| {
            span[cs..cs + 7].copy_from_slice(&n.head);
            (n.head, n.start_boundary_converted)
        });
        let prev = call.prev.map(|p| {
            let mut tail = p.tail;
            tail[4..11].copy_from_slice(&span[0..7]);
            (tail, p.end_boundary_converted)
        });
        Stitched {
            span,
            start_converted: call.start_converted,
            end_converted: call.end_converted,
            prev,
            next,
        }
    }
}

impl Host for Card {
    fn efatfs_read_at(&mut self, handle: u32, byte_offset: u32, count: u32) -> (bool, Vec<u8>) {
        self.reads.push((handle, byte_offset, count));
        if self.force_read_failure || self.fail_at_byte_offset == Some(byte_offset) {
            return (false, Vec::new());
        }
        let bytes = (0..count - self.short_by).map(|i| byte_offset.wrapping_add(i) as u8);
        (true, bytes.collect())
    }

    fn async_active(&mut self) -> bool {
        self.task
    }

    fn efatfs_read_awaited(
        &mut self,
        handle: u32,
        byte_offset: u32,
        count: u32,
    ) -> Awaited {
        self.awaited += 1;
        if self.may_wait {
            let (ok, data) = self.efatfs_read_at(handle, byte_offset, count);
            Awaited::Read(ok, data)
        } else {
            Awaited::Later(7)
        }
    }

    fn signal_fill(&mut self) {
        self.wakes += 1;
    }
}

type Store = Streaming<Mem, Card>;

/// A cache with one asset whose context is `ctx`.
fn harness(ctx: FillContext) -> (Store, u32) {
    let res = Resource::create(Mem { next: 0 }, 4, 16, true).unwrap();
    let mut st = Streaming::new(
        res,
        Card {
            force_read_failure: false,
            fail_at_byte_offset: None,
            reads: Vec::new(),
            wakes: 0,
            task: false,
            may_wait: true,
            short_by: 0,
            awaited: 0,
        },
    );
    st.res.mgr.set_slab(0x5);
    let asset = st.res.mgr.define_asset(
        0,
        Source {
            materialize: None,
            on_evict: None,
            construct: Some(1),
            ctx: 0,
            cost: 1,
            backing: BACKING_SLAB,
        },
    );
    deluge_streaming_set_fill_context(&mut st.contexts, asset, ctx);
    (st, asset)
}

const CHUNK_SIZE: u32 = 4096;
const CLUSTER_SIZE: u32 = 512;
const CLUSTER_MAGNITUDE: u32 = 9; // 2^9 == 512

fn lifecycle_fill_context() -> FillContext {
    FillContext {
        efatfs_handle: 0,
        audio_data_start_pos_bytes: 0,
        audio_data_length_bytes: 0, // not known
        first_cluster_index_with_no_audio_data: -1,
        cluster_size: CHUNK_SIZE,
        cluster_size_magnitude: 12, // 2^12 == 4096
        raw_data_format: 0,
        byte_depth: 2,
        num_channels: 1,
    }
}

fn geo(audio_data_length_bytes: u64) -> FillContext {
    FillContext {
        efatfs_handle: 0,
        audio_data_start_pos_bytes: 0,
        audio_data_length_bytes,
        first_cluster_index_with_no_audio_data: -1,
        cluster_size: CLUSTER_SIZE,
        cluster_size_magnitude: CLUSTER_MAGNITUDE,
        raw_data_format: 0, // native
        byte_depth: 2,
        num_channels: 1,
    }
}

/// 24-bit mono: three bytes to a frame, which do not divide a cluster.
fn geo24(audio_data_length_bytes: u64) -> FillContext {
    FillContext {
        byte_depth: 3,
        ..geo(audio_data_length_bytes)
    }
}

fn tiny() -> FillContext {
    FillContext {
        audio_data_length_bytes: 3 * 4,
        cluster_size: 4,
        cluster_size_magnitude: 2, // 2^2 == 4
        ..geo24(0)
    }
}

fn expected_cluster_bytes(index: u32) -> Vec<u8> {
    let base = index * CLUSTER_SIZE;
    (0..CLUSTER_SIZE)
        .map(|i| base.wrapping_add(i) as u8)
        .collect()
}

/// `n` bytes from the cursor's frame on.
fn bytes_of(st: &Store, w: &Window, n: usize) -> Vec<u8> {
    let b = st.chunks.bytes(w.chunk).unwrap();
    let from = w.byte_offset as usize;
    assert_eq!(w.frames, st.chunks.payload(w.chunk) + from);
    b[from..from + n].to_vec()
}

/// The bytes of cluster `index`, and where in them the address `frames` is.
fn seen(st: &mut Store, asset: u32, index: u32, frames: usize) -> (Vec<u8>, usize) {
    let p = st.res.mgr.peek(asset, index);
    (
        st.chunks.bytes(p).unwrap().clone(),
        frames - st.chunks.payload(p),
    )
}

fn leases_on(st: &mut Store, asset: u32, index: u32) -> u32 {
    let p = st.res.mgr.peek(asset, index);
    let slot = st.res.mgr.slot_of(p);
    st.res.lease_count_by_slot(slot)
}

#[test]
fn open_sets_the_expected_initial_state_with_no_lease_held() {
    let (st, asset) = harness(lifecycle_fill_context());
    let reader = Reader::open(&st, asset, 123, -1, ReadHint::Scan);
    assert_eq!(reader.asset(), asset);
    assert_eq!(reader.current_frame(), 123);
    assert_eq!(reader.direction(), -1);
    assert_eq!(reader.hint(), ReadHint::Scan);
    assert!(reader.held_cluster().is_none(), "open must not take a lease");
    assert!(
        reader.ok(),
        "geometry must resolve from the registered fill-context (Step 0)"
    );
}

#[test]
fn seek_drops_the_held_lease_and_updates_current_frame() {
    let (mut st, asset) = harness(lifecycle_fill_context());
    let mut reader = Reader::open(&st, asset, 10, 1, ReadHint::Cached);
    assert_eq!(reader.current_frame(), 10);

    assert_ne!(reader.window(&mut st).frames, 0);
    assert_eq!(reader.held_cluster(), Some(0));
    assert_eq!(
        leases_on(&mut st, asset, 0),
        1,
        "the window holds exactly one lease before seek"
    );

    reader.seek(&mut st, 42);

    assert_eq!(reader.current_frame(), 42, "seek must move the cursor");
    assert_eq!(
        leases_on(&mut st, asset, 0),
        0,
        "seek must release the held lease"
    );
}

#[test]
fn seek_with_no_held_lease_just_moves_the_cursor() {
    let (mut st, asset) = harness(lifecycle_fill_context());
    let mut reader = Reader::open(&st, asset, 0, 1, ReadHint::Cached);
    reader.seek(&mut st, 7);
    assert_eq!(reader.current_frame(), 7);
}

#[test]
fn boxed_open_is_non_null_and_dropping_it_releases_any_held_lease_without_leak() {
    let (mut st, asset) = harness(lifecycle_fill_context());
    let mut reader = Box::new(Reader::open(&st, asset, 0, 1, ReadHint::Cached));
    reader.window(&mut st);
    assert_eq!(reader.held_cluster(), Some(0));
    assert_eq!(leases_on(&mut st, asset, 0), 1);

    reader.close(&mut st);

    assert_eq!(
        leases_on(&mut st, asset, 0),
        0,
        "close must release the held lease, with no leak"
    );
}

#[test]
fn window_at_frame_zero_matches_the_synthetic_fill_and_reports_frames_to_backing_end() {
    let (mut st, asset) = harness(geo(3 * CLUSTER_SIZE as u64)); // 3 full clusters
    let mut reader = Reader::open(&st, asset, 0, 1, ReadHint::Cached);
    assert!(
        reader.ok(),
        "geometry must resolve from the registered fill-context"
    );

    let w = reader.window(&mut st);
    assert_ne!(
        w.frames, 0,
        "window must return a real pointer on a successful fill"
    );
    assert_eq!(
        w.frame_count,
        CLUSTER_SIZE / 2,
        "256 frames of stride 2 fill the whole 512-byte cluster"
    );
    assert_eq!(
        bytes_of(&st, &w, CLUSTER_SIZE as usize),
        expected_cluster_bytes(0)
    );
    assert!(reader.ok(), "a successful window must not clear ok()");
    assert_eq!(st.host.reads, vec![(0, 0, 512)]);
}

#[test]
fn window_past_the_last_audio_frame_is_eof_not_a_failure() {
    // 10 bytes of audio, 5 frames: cluster 0 is short.
    let (mut st, asset) = harness(geo(10));
    let mut reader = Reader::open(&st, asset, 5, 1, ReadHint::Cached);
    assert!(reader.ok());

    let w = reader.window(&mut st);
    assert_eq!(w.frames, 0, "EOF must return a null pointer");
    assert_eq!(w.frame_count, 0, "EOF must report frame_count == 0");
    assert!(
        reader.ok(),
        "end-of-audio is the ordinary, expected way a scan terminates, not a failure"
    );
}

#[test]
fn window_self_pins_and_advance_releases_across_a_boundary_but_not_within_it() {
    let (mut st, asset) = harness(geo(3 * CLUSTER_SIZE as u64));
    let mut reader = Reader::open(&st, asset, 0, 1, ReadHint::Cached);
    let w0 = reader.window(&mut st);
    assert_ne!(w0.frames, 0);
    assert_eq!(w0.frame_count, CLUSTER_SIZE / 2);

    assert_eq!(
        reader.held_cluster(),
        Some(0),
        "window must self-pin the backing it points into"
    );
    assert_eq!(
        leases_on(&mut st, asset, 0),
        1,
        "the manager must report exactly one lease held on the backing"
    );

    // Within cluster 0 (256 frames wide): the pin is kept, not taken again.
    reader.advance(&mut st, 5);
    assert_eq!(reader.current_frame(), 5);
    assert!(
        reader.held_cluster().is_some(),
        "advance within the backing must keep the pin"
    );
    assert_eq!(leases_on(&mut st, asset, 0), 1);

    // To exactly cluster 1's first frame: the old pin goes at once.
    reader.advance(&mut st, 251);
    assert_eq!(reader.current_frame(), 256);
    assert!(
        reader.held_cluster().is_none(),
        "advance past the backing must release the pin (self-pin invariant)"
    );
    assert_eq!(
        leases_on(&mut st, asset, 0),
        0,
        "the released pin must drop the manager's lease count for cluster 0"
    );

    let w1 = reader.window(&mut st);
    assert_ne!(w1.frames, 0);
    assert_eq!(
        w1.frame_count,
        CLUSTER_SIZE / 2,
        "cluster 1 at its own offset 0 is a fresh full cluster"
    );
    assert_eq!(
        bytes_of(&st, &w1, CLUSTER_SIZE as usize),
        expected_cluster_bytes(1),
        "cluster 1's window bytes must match the synthetic fill"
    );
}

#[test]
fn forced_read_failure_clears_ok_distinct_from_eof() {
    let (mut st, asset) = harness(geo(3 * CLUSTER_SIZE as u64));
    st.host.force_read_failure = true;

    let mut reader = Reader::open(&st, asset, 0, 1, ReadHint::Cached);
    assert!(
        reader.ok(),
        "open itself must still succeed (geometry resolves)"
    );

    let w = reader.window(&mut st);
    assert_eq!(w.frames, 0);
    assert_eq!(w.frame_count, 0);
    assert!(
        !reader.ok(),
        "a forced read failure must clear ok() -- distinct from EOF, which leaves it set"
    );
    assert_eq!(leases_on(&mut st, asset, 0), 0);
}

#[test]
fn window_recovers_after_a_transient_read_failure() {
    let (mut st, asset) = harness(geo(3 * CLUSTER_SIZE as u64));
    st.host.force_read_failure = true;
    let mut reader = Reader::open(&st, asset, 0, 1, ReadHint::Cached);
    assert_eq!(reader.window(&mut st).frames, 0);
    assert!(!reader.ok(), "a transient read failure clears ok()");

    // The card recovers: the next window tries again.
    st.host.force_read_failure = false;
    let w2 = reader.window(&mut st);
    assert_ne!(
        w2.frames, 0,
        "reader recovers on the next window after the failure clears"
    );
    assert!(w2.frame_count > 0);
    assert!(reader.ok(), "ok() reflects the now-successful window");
}

#[test]
fn window_straddles_a_cluster_boundary_forward_with_24bit_stride() {
    let (mut st, asset) = harness(geo24(3 * CLUSTER_SIZE as u64));
    // Frame 170 is bytes 510, 511 and 512: two of cluster 0 and one of cluster 1.
    let mut reader = Reader::open(&st, asset, 170, 1, ReadHint::Cached);
    assert!(reader.ok());

    let w = reader.window(&mut st);
    assert_ne!(w.frames, 0, "a mid-stream straddling frame must NOT report EOF");
    assert_eq!(
        w.frame_count, 1,
        "exactly the one straddling frame is servable from cluster 0's slack"
    );
    assert!(reader.ok(), "a straddling-but-real frame is not a failure");
    assert_eq!(
        bytes_of(&st, &w, 3),
        [254u8, 255u8, 0u8],
        "bytes 510/511 are cluster 0's own ramp; byte 512 is cluster 1's stitched head[0]"
    );
    // Cluster 1 was read for the stitch, and is not held.
    assert_eq!(st.host.reads, vec![(0, 0, 512), (0, 512, 512)]);
    assert_eq!(leases_on(&mut st, asset, 1), 0);
}

#[test]
fn window_straddles_a_cluster_boundary_backward_with_24bit_stride() {
    let (mut st, asset) = harness(geo24(3 * CLUSTER_SIZE as u64));
    let mut reader = Reader::open(&st, asset, 170, -1, ReadHint::Cached);
    assert!(reader.ok());

    let w = reader.window(&mut st);
    assert_ne!(
        w.frames, 0,
        "a mid-stream straddling frame must NOT report EOF (backward)"
    );
    assert_eq!(
        w.frame_count, 171,
        "frames 0..=170 are all servable backward from here"
    );
    assert!(reader.ok());
    assert_eq!(bytes_of(&st, &w, 3), [254u8, 255u8, 0u8]);
}

#[test]
fn window_true_eof_with_24bit_stride_does_not_falsely_straddle() {
    // 511 bytes of audio: cluster 0 is short, and nothing follows it.
    let (mut st, asset) = harness(geo24(511));
    let mut reader = Reader::open(&st, asset, 170, 1, ReadHint::Cached);
    assert!(reader.ok());

    let w = reader.window(&mut st);
    assert_eq!(w.frames, 0, "true EOF must return a null pointer");
    assert_eq!(
        w.frame_count, 0,
        "the short last cluster's partial tail must NOT be counted as a straddling frame"
    );
    assert!(
        reader.ok(),
        "genuine end-of-audio is not a failure, even with a non-dividing stride"
    );
}

#[test]
fn advance_saturates_at_total_frames_near_eof() {
    let (mut st, asset) = harness(geo(3 * CLUSTER_SIZE as u64)); // stride 2
    let total_frames = (3 * CLUSTER_SIZE as u64) / 2; // 768

    let mut reader = Reader::open(&st, asset, total_frames - 10, 1, ReadHint::Cached);
    reader.advance(&mut st, u32::MAX);
    assert_eq!(
        reader.current_frame(),
        total_frames,
        "advance must clamp at the sample's own total frame count, not overrun/wrap past it"
    );
}

#[test]
fn window_backward_degrade_retreats_the_pointer_past_the_unconfirmed_straddling_frame() {
    let (mut st, asset) = harness(geo24(3 * CLUSTER_SIZE as u64));
    // Cluster 1's read fails; cluster 0's does not.
    st.host.fail_at_byte_offset = Some(CLUSTER_SIZE);

    let mut reader = Reader::open(&st, asset, 170, -1, ReadHint::Cached);
    assert!(reader.ok());

    let w = reader.window(&mut st);
    assert_ne!(
        w.frames, 0,
        "plenty of SAFE frames remain even though the straddling one had to be dropped"
    );
    assert_eq!(
        w.frame_count, 170,
        "171 minus the one dropped, unconfirmed straddling frame"
    );
    assert!(
        reader.ok(),
        "frames remain servable -- this is a degrade, not a failure"
    );
    assert_eq!(
        bytes_of(&st, &w, 3),
        [251u8, 252u8, 253u8],
        "the window must start on bytes 507..510"
    );
}

#[test]
fn window_forward_degrade_to_zero_is_a_failure_not_eof() {
    let (mut st, asset) = harness(tiny());
    // Cluster 1's read fails; cluster 0's does not.
    st.host.fail_at_byte_offset = Some(4);

    // Frame 1 is byte 3 and two bytes of cluster 1: the only frame there.
    let mut reader = Reader::open(&st, asset, 1, 1, ReadHint::Cached);
    assert!(reader.ok());

    let w = reader.window(&mut st);
    assert_eq!(w.frames, 0);
    assert_eq!(w.frame_count, 0);
    assert!(
        !reader.ok(),
        "the straddling frame was the ONLY servable one and couldn't be confirmed"
    );
}

#[test]
fn window_backward_degrade_to_zero_is_a_failure_not_eof() {
    let (mut st, asset) = harness(tiny());
    // Cluster 2's read fails; cluster 1's does not.
    st.host.fail_at_byte_offset = Some(2 * 4);

    // Frame 2 is at byte 2 of cluster 1: the only frame backward from there.
    let mut reader = Reader::open(&st, asset, 2, -1, ReadHint::Cached);
    assert!(reader.ok());

    let w = reader.window(&mut st);
    assert_eq!(w.frames, 0);
    assert_eq!(w.frame_count, 0);
    assert!(
        !reader.ok(),
        "the straddling frame at the cursor was the ONLY servable one"
    );
}

const STRIDE: usize = 2; // byte_depth 2 * num_channels 1

#[test]
fn read_matches_a_manual_open_window_advance_loop_across_a_cluster_boundary() {
    let (mut st, asset) = harness(geo(3 * CLUSTER_SIZE as u64));
    // All of cluster 0 (256 frames) and 44 frames of cluster 1.
    let num_frames: u32 = 300;
    let dest_bytes = num_frames as usize * STRIDE;

    let mut via_read = vec![0xAAu8; dest_bytes];
    let written = Reader::read(&mut st, asset, 0, num_frames, &mut via_read);
    assert_eq!(
        written, num_frames,
        "plenty of real audio exists (768 frames) -- the whole range is servable"
    );

    // The same range by hand.
    let mut manual: Vec<u8> = Vec::with_capacity(dest_bytes);
    let mut reader = Reader::open(&st, asset, 0, 1, ReadHint::Cached);
    let mut remaining = num_frames;
    while remaining > 0 {
        let w = reader.window(&mut st);
        if w.frame_count == 0 {
            break;
        }
        let n = w.frame_count.min(remaining);
        manual.extend(bytes_of(&st, &w, n as usize * STRIDE));
        reader.advance(&mut st, n);
        remaining -= n;
    }
    assert_eq!(
        via_read, manual,
        "read must be byte-identical to a manual open+window+copy+advance loop"
    );
    reader.close(&mut st);
    assert_eq!(leases_on(&mut st, asset, 0), 0);
    assert_eq!(leases_on(&mut st, asset, 1), 0);
}

#[test]
fn read_past_end_of_audio_returns_a_short_count_and_does_not_overrun_dest() {
    // 10 bytes of audio: 5 frames.
    let (mut st, asset) = harness(geo(10));
    let num_frames: u32 = 100;
    let dest_bytes = num_frames as usize * STRIDE;
    let mut dest = vec![0xAAu8; dest_bytes];

    let written = Reader::read(&mut st, asset, 0, num_frames, &mut dest);

    assert_eq!(written, 5, "only 5 real frames of audio exist");
    assert_eq!(
        &dest[0..10],
        &expected_cluster_bytes(0)[0..10],
        "the 5 real frames actually written must match the synthetic fill"
    );
    assert!(
        dest[10..].iter().all(|&b| b == 0xAA),
        "must not write a single byte past the real audio into the rest of dest"
    );
}

#[test]
fn read_bounds_the_write_to_dest_bytes_when_smaller_than_num_frames_times_stride() {
    let (mut st, asset) = harness(geo(3 * CLUSTER_SIZE as u64));
    let num_frames: u32 = 300;
    let dest_bytes: usize = 101; // 50 frames and one byte
    let mut dest = vec![0xAAu8; dest_bytes];

    let written = Reader::read(&mut st, asset, 0, num_frames, &mut dest);

    let max_frames = (dest_bytes / STRIDE) as u32; // 50
    assert_eq!(
        written, max_frames,
        "dest_bytes (101 -> 50 whole frames) must bound the write, not num_frames (300)"
    );
    let written_bytes = max_frames as usize * STRIDE; // 100
    assert_eq!(
        &dest[0..written_bytes],
        &expected_cluster_bytes(0)[0..written_bytes],
        "the bytes actually written must match the synthetic fill"
    );
    assert_eq!(
        dest[written_bytes], 0xAA,
        "the one leftover byte (100..101, less than one whole frame) must be untouched"
    );
}

#[test]
fn peek_forward_from_a_clusters_first_frame_runs_to_its_last_frame_matching_the_ramp() {
    let (mut st, asset) = harness(geo(3 * CLUSTER_SIZE as u64));
    let mut reader = Reader::open(&st, asset, 0, 1, ReadHint::Cached);
    let filled = reader.window(&mut st).frame_count;
    assert_eq!(filled, CLUSTER_SIZE / 2);

    let (frames, frame_count) = peek(&mut st, asset, 0, 1);
    assert_ne!(frames, 0, "a resident+ready cluster must not peek null");
    assert_eq!(
        frame_count,
        CLUSTER_SIZE / 2,
        "a +1 peek from the cluster's own first frame must run to its last resident frame"
    );
    let (bytes, at) = seen(&mut st, asset, 0, frames);
    assert_eq!(at, 0);
    assert_eq!(
        bytes[..CLUSTER_SIZE as usize],
        expected_cluster_bytes(0),
        "peek's bytes must match the synthetic fill, exactly like window()'s own"
    );
    assert_eq!(leases_on(&mut st, asset, 0), 1); // the reader's own
}

#[test]
fn peek_backward_at_a_mid_cluster_frame_runs_back_to_the_clusters_first_frame() {
    let (mut st, asset) = harness(geo(3 * CLUSTER_SIZE as u64));
    let mut reader = Reader::open(&st, asset, 0, 1, ReadHint::Cached);
    reader.window(&mut st);

    // Frame 100 is at byte 200.
    let start_frame = 100u64;
    let byte_offset = 200u32;
    let stride = STRIDE as u32;
    let (frames, frame_count) = peek(&mut st, asset, start_frame, -1);
    assert_ne!(frames, 0);
    assert_eq!(
        frame_count,
        byte_offset / stride + 1,
        "a -1 peek must run back to (and include) the cluster's own first frame"
    );

    let (bytes, at) = seen(&mut st, asset, 0, frames);
    for k in 0..frame_count {
        let byte = bytes[at - k as usize * STRIDE];
        let expected = (byte_offset - k * stride) as u8;
        assert_eq!(
            byte, expected,
            "reverse-run byte at k={k} must match the ramp"
        );
    }
}

#[test]
fn peek_on_the_last_partial_frame_is_resident_non_null_with_a_zero_count() {
    let (mut st, asset) = harness(geo24(511));
    let mut reader = Reader::open(&st, asset, 0, 1, ReadHint::Cached);
    let w = reader.window(&mut st);
    assert_ne!(w.frames, 0, "cluster 0 must fill from frame 0");
    assert_eq!(w.frame_count, 170, "511 bytes / stride 3 == 170 whole frames");

    // One byte is left from frame 170 on.
    let (frames, frame_count) = peek(&mut st, asset, 170, 1);
    assert_ne!(
        frames, 0,
        "the last partial frame is resident: residency is the pointer, not the count"
    );
    assert_eq!(
        frame_count, 0,
        "no WHOLE frame fits forward from the last partial frame -- 0, not EOF"
    );
    let (bytes, at) = seen(&mut st, asset, 0, frames);
    assert_eq!(
        bytes[at..at + 2],
        [254u8, 255u8],
        "frames must point at the cursor's own ramp bytes, ready to read byte-wise"
    );
}

#[test]
fn peek_on_a_non_resident_cluster_returns_null() {
    let (mut st, asset) = harness(geo(3 * CLUSTER_SIZE as u64));
    let (frames, frame_count) = peek(&mut st, asset, 0, 1);
    assert_eq!(frames, 0, "a never-resident cluster must peek null");
    assert_eq!(frame_count, 0);
}

#[test]
fn peek_on_a_resident_but_not_ready_cluster_returns_null() {
    let (mut st, asset) = harness(geo(3 * CLUSTER_SIZE as u64));
    let reservation = st.request(asset, 0, CLUSTER_SIZE).expect("request");
    let (frames, frame_count) = peek(&mut st, asset, 0, 1);
    assert_eq!(
        frames, 0,
        "resident-but-not-ready must peek null (the Step 2 ready gate)"
    );
    assert_eq!(frame_count, 0);
    st.res.release_lease(reservation);
}

// ---- calls that may lack a handle ----

#[test]
fn open_returns_non_null_and_close_on_a_lease_free_reader_is_a_clean_no_leak_round_trip() {
    let (mut st, asset) = harness(lifecycle_fill_context());
    let reader = deluge_sample_reader_open(&st, asset, 0, 1, ReadHint::Cached);
    assert!(deluge_sample_reader_ok(Some(&reader)));
    deluge_sample_reader_close(Some(reader), &mut st);
}

#[test]
fn seek_through_the_abi_updates_current_frame_and_drops_a_held_lease() {
    let (mut st, asset) = harness(lifecycle_fill_context());
    let mut reader = deluge_sample_reader_open(&st, asset, 5, 1, ReadHint::Cached);
    let w = deluge_sample_reader_window(Some(&mut reader), &mut st);
    assert_ne!(w.frames, 0);
    assert_eq!(leases_on(&mut st, asset, 0), 1);

    deluge_sample_reader_seek(Some(&mut reader), &mut st, 99);

    assert_eq!(reader.current_frame(), 99, "seek must move the cursor");
    assert_eq!(
        leases_on(&mut st, asset, 0),
        0,
        "seek must release the held lease"
    );
    deluge_sample_reader_close(Some(reader), &mut st);
}

#[test]
fn close_on_a_held_lease_releases_it_without_leak() {
    let (mut st, asset) = harness(lifecycle_fill_context());
    let mut reader = deluge_sample_reader_open(&st, asset, 0, 1, ReadHint::Cached);
    deluge_sample_reader_window(Some(&mut reader), &mut st);
    assert_eq!(leases_on(&mut st, asset, 0), 1);

    deluge_sample_reader_close(Some(reader), &mut st);

    assert_eq!(
        leases_on(&mut st, asset, 0),
        0,
        "close must release the held lease, with no leak"
    );
}

#[test]
fn null_reader_is_tolerated_by_seek_close_advance_and_ok() {
    let (mut st, asset) = harness(lifecycle_fill_context());
    deluge_sample_reader_seek(None, &mut st, 5);
    deluge_sample_reader_advance(None, &mut st, 5);
    assert!(!deluge_sample_reader_ok(None));
    let w = deluge_sample_reader_window(None, &mut st);
    assert_eq!(w.frames, 0);
    assert_eq!(w.frame_count, 0);
    deluge_sample_reader_close(None, &mut st);
    // Nor is there always a cache.
    let mut dest = vec![1; 4];
    assert_eq!(
        deluge_sample_read::<Mem, Card>(None, asset, 0, 2, &mut dest),
        0
    );
    assert_eq!(dest, vec![1; 4]);
    let w = deluge_sample_peek::<Mem, Card>(None, asset, 0, 1);
    assert_eq!((w.frames, w.frame_count), (0, 0));
    deluge_sample_invalidate::<Mem, Card>(None, asset);
}

#[test]
fn calls_with_a_cache_read_and_peek() {
    let (mut st, asset) = harness(geo(3 * CLUSTER_SIZE as u64));
    let mut dest = vec![0; 4];
    assert_eq!(deluge_sample_read(Some(&mut st), asset, 3, 2, &mut dest), 2);
    assert_eq!(dest, vec![6, 7, 8, 9]);
    let w = deluge_sample_peek(Some(&mut st), asset, 3, 1);
    assert_ne!(w.frames, 0);
    assert_eq!(w.frame_count, 253);
    let mut reader = deluge_sample_reader_open(&st, asset, 0, 1, ReadHint::Cached);
    deluge_sample_reader_advance(Some(&mut reader), &mut st, 300);
    assert_eq!(reader.current_frame(), 300);
}

fn two_cluster_fill_context() -> FillContext {
    FillContext {
        audio_data_length_bytes: (CHUNK_SIZE * 2) as u64,
        ..lifecycle_fill_context()
    }
}

#[test]
fn invalidate_flags_and_dequeues_every_resident_cluster() {
    let (mut st, asset) = harness(two_cluster_fill_context());
    // Cluster 0 is ready; cluster 1 is reserved and queued.
    let l0 = st.request(asset, 0, CHUNK_SIZE).unwrap();
    st.res.mark_ready(l0.chunk());
    let l1 = st.request(asset, 1, CHUNK_SIZE).unwrap();
    let s1 = st.res.slot_of(l1.chunk());
    st.res.loader_enqueue(s1, 0xFFFF_FFFF);
    assert!(
        st.res.loader_next().is_some(),
        "precondition: queue is non-empty"
    );
    st.res.loader_enqueue(s1, 0xFFFF_FFFF);

    assert!(!st.chunks.unloadable(l0.chunk().as_ptr()));
    assert!(!st.chunks.unloadable(l1.chunk().as_ptr()));

    deluge_sample_invalidate(Some(&mut st), asset);

    assert!(
        st.chunks.unloadable(l0.chunk().as_ptr()),
        "cluster 0 flagged unloadable"
    );
    assert!(
        st.chunks.unloadable(l1.chunk().as_ptr()),
        "cluster 1 flagged unloadable"
    );
    assert!(
        st.res.loader_next().is_none(),
        "invalidate dequeued the queued cluster"
    );
    st.res.release_lease(l0);
    st.res.release_lease(l1);
}

#[test]
fn invalidate_is_a_bounded_no_op_when_length_is_unknown_or_zero() {
    for length in [UNKNOWN_LENGTH_SENTINEL, 0] {
        let (mut st, asset) = harness(FillContext {
            audio_data_length_bytes: length,
            ..two_cluster_fill_context()
        });
        let l0 = st.request(asset, 0, CHUNK_SIZE).unwrap();
        st.res.mark_ready(l0.chunk());
        let slot = st.res.slot_of(l0.chunk());

        invalidate(&mut st, asset);

        assert!(
            !st.chunks.unloadable(l0.chunk().as_ptr()),
            "length {length:#x} must invalidate nothing -- no finite bound available"
        );
        assert_eq!(
            st.res.lease_count_by_slot(slot),
            1,
            "the resident cluster's lease must be untouched by a bounded no-op"
        );
        st.res.release_lease(l0);
    }
}

// ---- more of the reader ----

#[test]
fn frames_are_located_by_cluster_offset_and_residency() {
    let g = geometry_from_context(FillContext {
        audio_data_start_pos_bytes: 44,
        ..geo(1000)
    });
    assert_eq!(frame_stride_of(&g), 2);
    assert_eq!(locate(0, &g), Some((0, 44, 512)));
    assert_eq!(locate(234, &g), Some((1, 0, 512)));
    assert_eq!(locate(499, &g), Some((2, 18, 20)));
    assert_eq!(locate(1000, &g), Some((3, 508, 0))); // past the end
    let none = FillContext {
        cluster_size: 0,
        ..geo(1000)
    };
    assert_eq!(locate(0, &geometry_from_context(none)), None);
}

#[test]
fn without_a_context_nothing_is_read() {
    let (mut st, asset) = harness(geo(100));
    let mut reader = Reader::open(&st, asset + 1, 0, 1, ReadHint::Cached);
    assert!(!reader.ok());
    let w = reader.window(&mut st);
    assert_eq!((w.frames, w.frame_count), (0, 0));
    let mut dest = vec![0xAA; 8];
    assert_eq!(Reader::read(&mut st, asset + 1, 0, 4, &mut dest), 0);
    assert_eq!(dest, vec![0xAA; 8]);
    assert_eq!(peek(&mut st, asset + 1, 0, 1), (0, 0));
    assert!(st.host.reads.is_empty());
}

#[test]
fn read_stops_where_the_card_fails() {
    let (mut st, asset) = harness(geo(3 * CLUSTER_SIZE as u64));
    st.host.fail_at_byte_offset = Some(512);
    let mut dest = vec![0xAA; 600];
    assert_eq!(Reader::read(&mut st, asset, 0, 300, &mut dest), 256);
    assert_eq!(dest[..512], expected_cluster_bytes(0));
    assert!(dest[512..].iter().all(|&b| b == 0xAA));
    assert_eq!(leases_on(&mut st, asset, 0), 0);
}

#[test]
fn read_copies_straddling_frames() {
    let (mut st, asset) = harness(geo24(3 * CLUSTER_SIZE as u64));
    let mut dest = vec![0; 3 * 4];
    assert_eq!(Reader::read(&mut st, asset, 169, 4, &mut dest), 4);
    let want: Vec<u8> = (507..519u32).map(|i| i as u8).collect();
    assert_eq!(dest, want);
}

#[test]
fn reading_backward_walks_to_the_start() {
    let (mut st, asset) = harness(geo(2 * CLUSTER_SIZE as u64));
    let mut reader = Reader::open(&st, asset, 300, -1, ReadHint::Cached);
    let w = reader.window(&mut st);
    assert_eq!(w.frame_count, 300 - 256 + 1);
    assert_eq!(bytes_of(&st, &w, 2), [88, 89]); // 600 mod 256
    reader.advance(&mut st, 45);
    assert_eq!(reader.current_frame(), 255);
    assert!(reader.held_cluster().is_none());
    assert_eq!(reader.window(&mut st).frame_count, 256);
    reader.advance(&mut st, 1000);
    assert_eq!(reader.current_frame(), 0);
    assert_eq!(reader.held_cluster(), Some(0));
    reader.close(&mut st);
}

#[test]
fn reads_go_through_the_hosts_task_if_it_has_one() {
    let (mut st, asset) = harness(geo(3 * CLUSTER_SIZE as u64));
    st.host.task = true;
    let mut reader = Reader::open(&st, asset, 0, 1, ReadHint::Cached);
    let w = reader.window(&mut st);
    assert_eq!(w.frame_count, CLUSTER_SIZE / 2);
    assert_eq!(
        bytes_of(&st, &w, CLUSTER_SIZE as usize),
        expected_cluster_bytes(0)
    );
    assert_eq!(st.host.awaited, 1);
    // Where nobody may wait the window fails, and can be tried again.
    st.host.may_wait = false;
    reader.seek(&mut st, 256);
    assert_eq!(reader.window(&mut st).frames, 0);
    assert!(!reader.ok());
    assert_eq!(st.host.reads.len(), 1);
    assert_eq!(leases_on(&mut st, asset, 1), 0);
    // The chunk was queued for the task at the urgency that the host named, but nobody holds
    // it any more, so it is not served.
    assert!(st.res.loader_next().is_none());
    st.host.task = false;
    assert_eq!(reader.window(&mut st).frame_count, CLUSTER_SIZE / 2);
    assert!(reader.ok());
}

/// 24-bit stereo: six bytes to a frame.
fn geo24_stereo(audio_data_length_bytes: u64) -> FillContext {
    FillContext {
        num_channels: 2,
        ..geo24(audio_data_length_bytes)
    }
}

#[test]
fn a_frame_that_the_audio_cuts_off_is_the_end() {
    // 513 bytes are 85 frames of 6 bytes; frame 85 would need bytes 510 to 516.
    for direction in [1i8, -1] {
        let (mut st, asset) = harness(geo24_stereo(513));
        let mut reader = Reader::open(&st, asset, 85, direction, ReadHint::Cached);
        let w = reader.window(&mut st);
        assert_eq!((w.frames, w.frame_count), (0, 0));
        assert!(reader.ok());
        assert!(st.host.reads.is_empty());
    }
    // With 516 bytes it is there.
    let (mut st, asset) = harness(geo24_stereo(516));
    let mut reader = Reader::open(&st, asset, 85, 1, ReadHint::Cached);
    let w = reader.window(&mut st);
    assert_eq!(w.frame_count, 1);
    assert_eq!(bytes_of(&st, &w, 6), vec![254, 255, 0, 1, 2, 3]);
}

#[test]
fn a_scan_ends_with_the_last_whole_frame() {
    let (mut st, asset) = harness(geo24_stereo(513));
    let mut reader = Reader::open(&st, asset, 0, 1, ReadHint::Scan);
    let mut frames = 0;
    loop {
        let w = reader.window(&mut st);
        if w.frame_count == 0 {
            break;
        }
        frames += w.frame_count;
        reader.advance(&mut st, w.frame_count);
    }
    assert!(reader.ok());
    assert_eq!(frames, 85);
    reader.close(&mut st);
    let mut dest = vec![0xEEu8; 100 * 6];
    assert_eq!(Reader::read(&mut st, asset, 0, 100, &mut dest), 85);
    let want: Vec<u8> = (0..510u32).map(|i| i as u8).collect();
    assert_eq!(dest[..510], want[..]);
    assert!(dest[510..].iter().all(|b| *b == 0xEE));
}

#[test]
fn a_short_read_is_a_failed_fill() {
    let (mut st, asset) = harness(geo(3 * CLUSTER_SIZE as u64));
    st.host.short_by = 1;
    let lease = st.request(asset, 0, CLUSTER_SIZE).unwrap();
    let chunk = lease.chunk();
    assert!(!st.fill_now(chunk));
    assert!(!st.chunks.loaded(chunk.as_ptr()));
    assert!(!st.res.is_ready(chunk));
    let mut reader = Reader::open(&st, asset, 256, 1, ReadHint::Cached);
    assert_eq!(reader.window(&mut st).frame_count, 0);
    assert!(!reader.ok());
    st.host.short_by = 0;
    assert!(st.fill_now(chunk));
    assert!(st.chunks.loaded(chunk.as_ptr()));
    assert!(st.res.is_ready(chunk));
    st.res.release_lease(lease);
}

#[test]
fn a_put_off_fill_is_queued_at_the_hosts_urgency() {
    let (mut st, asset) = harness(geo(3 * CLUSTER_SIZE as u64));
    st.host.may_wait = false;
    let lease = st.request(asset, 1, CLUSTER_SIZE).unwrap();
    let chunk = lease.chunk();
    assert!(!st.fill_with(chunk, true));
    assert!(!st.res.is_ready(chunk));
    assert!(st.host.reads.is_empty());
    assert_eq!(st.res.loader_next().map(|c| c.as_ptr()), Some(chunk.as_ptr()));
    st.res.release_lease(lease);
}
