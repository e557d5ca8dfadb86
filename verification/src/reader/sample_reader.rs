//! The reader: a cursor over the frames of one sample, which makes the clusters it passes
//! resident and pins the one it is in.
pub use crate::source::geometry::{
    nothing_follows_a_short_cluster, resident_bytes_for, Geometry, UNKNOWN_LENGTH_SENTINEL,
};
use crate::fill::chunk::{StoredChunk, StreamedChunk};
use crate::fill::context::{fill_context_for, FillContext};
use crate::fill::fill_logic::SampleConvert;
use crate::fill::native::{
    fill_now_outcome, reserved_for, Host, HostEvent, StreamView, Streaming,
};
use crate::resource::facade::{lease_addr, Backend, Lease};
use crate::resource::model::Model;
use crate::resource::types::NO_SLOT;
use vstd::prelude::*;

verus! {

/// What a reader is for.
#[derive(Clone, Copy, PartialEq, Eq, Debug, Structural)]
pub enum ReadHint {
    /// Shares the clusters that voices hold.
    Cached,
    /// Scans the whole sample once.
    Scan,
}

/// A context's geometry.
pub open spec fn context_geometry(ctx: FillContext) -> Geometry {
    Geometry {
        audio_data_start_bytes: ctx.audio_data_start_pos_bytes,
        audio_data_length_bytes: ctx.audio_data_length_bytes,
        cluster_size_bytes: ctx.cluster_size,
        byte_depth: ctx.byte_depth,
        num_channels: ctx.num_channels,
        raw_data_format: ctx.raw_data_format,
    }
}

/// A context's geometry.
pub fn geometry_from_context(ctx: FillContext) -> (r: Geometry)
    ensures
        r == context_geometry(ctx),
{
    Geometry {
        audio_data_start_bytes: ctx.audio_data_start_pos_bytes,
        audio_data_length_bytes: ctx.audio_data_length_bytes,
        cluster_size_bytes: ctx.cluster_size,
        byte_depth: ctx.byte_depth,
        num_channels: ctx.num_channels,
        raw_data_format: ctx.raw_data_format,
    }
}

/// Bytes of one frame.
pub open spec fn stride(geo: Geometry) -> int {
    geo.byte_depth * geo.num_channels
}

/// The larger values of 64 bits are all the largest.
pub open spec fn clamp64(x: int) -> int {
    if x > u64::MAX {
        u64::MAX as int
    } else {
        x
    }
}

/// Where a frame starts in the file.
pub open spec fn frame_pos(frame: u64, geo: Geometry) -> int {
    clamp64(geo.audio_data_start_bytes + clamp64(frame * stride(geo)))
}

/// The cluster that a frame starts in.
pub open spec fn frame_cluster(frame: u64, geo: Geometry) -> int {
    let c = frame_pos(frame, geo) / geo.cluster_size_bytes as int;
    if c > u32::MAX {
        u32::MAX as int
    } else {
        c
    }
}

/// Where a frame starts in its cluster.
pub open spec fn frame_offset(frame: u64, geo: Geometry) -> int {
    frame_pos(frame, geo) % geo.cluster_size_bytes as int
}

/// Frames have bytes, and so do clusters.
pub open spec fn well_formed(geo: Geometry) -> bool {
    stride(geo) > 0 && geo.cluster_size_bytes > 0
}

/// `a * b`, or the largest value.
fn saturating_mul(a: u64, b: u64) -> (r: u64)
    ensures
        r == clamp64(a * b),
{
    match a.checked_mul(b) {
        Some(v) => v,
        None => u64::MAX,
    }
}

/// The cluster that a frame starts in, where in it, and how many of its bytes are audio.
/// Nothing for a geometry without frames or clusters.
pub fn locate(frame: u64, geo: &Geometry) -> (r: Option<(u32, u32, u32)>)
    ensures
        match r {
            Some((cluster, offset, resident)) => {
                &&& well_formed(*geo)
                &&& cluster == frame_cluster(frame, *geo)
                &&& offset == frame_offset(frame, *geo)
                &&& resident == geo.resident(frame_cluster(frame, *geo))
                &&& offset < geo.cluster_size_bytes
                &&& resident <= geo.cluster_size_bytes
            },
            None => !well_formed(*geo),
        },
{
    let frame_stride: u64 = frame_stride_of(geo) as u64;
    if frame_stride == 0 || geo.cluster_size_bytes == 0 {
        return None;
    }
    let abs_byte_pos: u64 = (geo.audio_data_start_bytes as u64).saturating_add(
        saturating_mul(frame, frame_stride),
    );
    let cluster_size: u64 = geo.cluster_size_bytes as u64;
    let quotient: u64 = abs_byte_pos / cluster_size;
    let cluster_index: u32 = if quotient < u32::MAX as u64 {
        quotient as u32
    } else {
        u32::MAX
    };
    let byte_offset: u32 = (abs_byte_pos % cluster_size) as u32;
    let resident: u32 = resident_bytes_for(cluster_index, geo);
    Some((cluster_index, byte_offset, resident))
}

/// Bytes of one frame.
pub fn frame_stride_of(geo: &Geometry) -> (r: u32)
    ensures
        r == stride(*geo),
        r <= 65025,
{
    assert(0 <= geo.byte_depth * geo.num_channels <= 65025) by (nonlinear_arith)
        requires
            0 <= geo.byte_depth <= 255,
            0 <= geo.num_channels <= 255,
    ;
    geo.byte_depth as u32 * geo.num_channels as u32
}

/// What a window at a frame can hold.
#[derive(Clone, Copy, PartialEq, Eq, Debug, Structural)]
pub enum WindowPlan {
    /// The geometry has no frames or clusters.
    Malformed,
    /// There is no audio left.
    End,
    /// `frame_count` frames of `cluster`, from `byte_offset` on, or back from there. One of
    /// them reaches into the next cluster if `needs_next`.
    Serve { cluster: u32, byte_offset: u32, frame_count: u32, needs_next: bool },
}

/// A frame that starts at `at` in `cluster` and reaches over the cluster's end is audio: the
/// cluster is full, and all of the frame comes before the end of the audio.
pub open spec fn straddle_is_audio(geo: Geometry, cluster: int, at: int) -> bool {
    let cs = geo.cluster_size_bytes;
    &&& geo.resident(cluster) == cs
    &&& cluster < u32::MAX
    &&& geo.length_known() ==> cluster * cs + at + stride(geo) <= geo.end()
}

/// What a window at `frame` can hold: going forward the whole frames up to the end of the
/// cluster's audio, and one more if it reaches into the next cluster; going back the frame
/// at the cursor and those before it in the cluster.
pub open spec fn window_plan(geo: Geometry, frame: u64, direction: i8) -> WindowPlan {
    let cluster = frame_cluster(frame, geo);
    let offset = frame_offset(frame, geo);
    let resident = geo.resident(cluster);
    let left = resident - offset;
    if !well_formed(geo) {
        WindowPlan::Malformed
    } else if left <= 0 {
        WindowPlan::End
    } else if direction >= 0 {
        if left % stride(geo) > 0 && straddle_is_audio(
            geo,
            cluster,
            resident - left % stride(geo),
        ) {
            WindowPlan::Serve {
                cluster: cluster as u32,
                byte_offset: offset as u32,
                frame_count: (left / stride(geo) + 1) as u32,
                needs_next: true,
            }
        } else if left / stride(geo) == 0 {
            WindowPlan::End
        } else {
            WindowPlan::Serve {
                cluster: cluster as u32,
                byte_offset: offset as u32,
                frame_count: (left / stride(geo)) as u32,
                needs_next: false,
            }
        }
    } else if left < stride(geo) && !straddle_is_audio(geo, cluster, offset) {
        WindowPlan::End
    } else {
        WindowPlan::Serve {
            cluster: cluster as u32,
            byte_offset: offset as u32,
            frame_count: (offset / stride(geo) + 1) as u32,
            needs_next: left < stride(geo),
        }
    }
}

/// What a window at `frame` can hold.
pub fn plan_window(geo: &Geometry, frame: u64, direction: i8) -> (r: WindowPlan)
    ensures
        r == window_plan(*geo, frame, direction),
{
    let (cluster, byte_offset, resident): (u32, u32, u32) = match locate(frame, geo) {
        Some(z) => z,
        None => {
            return WindowPlan::Malformed;
        },
    };
    if byte_offset >= resident {
        return WindowPlan::End;
    }
    let frame_stride: u32 = frame_stride_of(geo);
    let left: u32 = resident - byte_offset;
    if direction >= 0 {
        let whole: u32 = left / frame_stride;
        let remainder: u32 = left % frame_stride;
        proof {
            lemma_whole(left as int, frame_stride as int);
        }
        if remainder > 0 && straddle_is_real_audio(geo, cluster, resident, resident - remainder) {
            WindowPlan::Serve { cluster, byte_offset, frame_count: whole + 1, needs_next: true }
        } else if whole == 0 {
            WindowPlan::End
        } else {
            WindowPlan::Serve { cluster, byte_offset, frame_count: whole, needs_next: false }
        }
    } else {
        if left < frame_stride && !straddle_is_real_audio(geo, cluster, resident, byte_offset) {
            return WindowPlan::End;
        }
        let before: u32 = byte_offset / frame_stride;
        proof {
            lemma_whole(byte_offset as int, frame_stride as int);
        }
        WindowPlan::Serve {
            cluster,
            byte_offset,
            frame_count: before + 1,
            needs_next: left < frame_stride,
        }
    }
}

/// Whether a frame that starts at `at` in `cluster` and reaches over its end is audio.
fn straddle_is_real_audio(geo: &Geometry, cluster: u32, resident: u32, at: u32) -> (r: bool)
    requires
        resident == geo.resident(cluster as int),
        at <= geo.cluster_size_bytes,
    ensures
        r == straddle_is_audio(*geo, cluster as int, at as int),
{
    if resident != geo.cluster_size_bytes || cluster == u32::MAX {
        return false;
    }
    if geo.audio_data_length_bytes == 0 || geo.audio_data_length_bytes == UNKNOWN_LENGTH_SENTINEL {
        return true;
    }
    let audio_data_end: u64 = geo.audio_data_length_bytes.saturating_add(
        geo.audio_data_start_bytes as u64,
    );
    let cluster_size: u64 = geo.cluster_size_bytes as u64;
    assert(0 <= cluster * cluster_size <= 0xFFFF_FFFD_0000_0002) by (nonlinear_arith)
        requires
            0 <= cluster <= 0xFFFF_FFFE,
            0 <= cluster_size <= 0xFFFF_FFFF,
    ;
    let frame_end: u64 = cluster as u64 * cluster_size + at as u64 + frame_stride_of(geo) as u64;
    frame_end <= audio_data_end
}

/// A quotient, and its rest.
pub proof fn lemma_whole(x: int, d: int)
    requires
        0 <= x,
        d > 0,
    ensures
        0 <= x / d <= x,
        x == (x / d) * d + x % d,
        0 <= x % d < d,
        x % d > 0 ==> x / d < x,
{
    vstd::arithmetic::div_mod::lemma_fundamental_div_mod(x, d);
    vstd::arithmetic::div_mod::lemma_mod_bound(x, d);
    assert((x / d) * d == d * (x / d)) by (nonlinear_arith);
    assert(0 <= x / d <= x) by (nonlinear_arith)
        requires
            x == d * (x / d) + x % d,
            0 <= x % d < d,
            0 <= x,
            d > 0,
    ;
    if x % d > 0 {
        assert(x / d <= d * (x / d)) by (nonlinear_arith)
            requires
                d > 0,
                0 <= x / d,
        ;
    }
}

/// The window that a plan leaves when it is known whether the next cluster is resident: the
/// offset and the count of frames, or nothing. A frame that reaches into a next cluster
/// that is not there is dropped: going forward it is the last, going back the first.
pub open spec fn window_of(
    geo: Geometry,
    byte_offset: u32,
    frame_count: u32,
    needs_next: bool,
    next_resident: bool,
    direction: i8,
) -> Option<(u32, u32)> {
    if !needs_next || next_resident {
        Some((byte_offset, frame_count))
    } else if frame_count <= 1 {
        None
    } else if direction >= 0 {
        Some((byte_offset, (frame_count - 1) as u32))
    } else {
        Some(((byte_offset - stride(geo)) as u32, (frame_count - 1) as u32))
    }
}

/// The window that a plan leaves when it is known whether the next cluster is resident.
pub fn settle_window(
    geo: &Geometry,
    byte_offset: u32,
    frame_count: u32,
    needs_next: bool,
    next_resident: bool,
    direction: i8,
) -> (r: Option<(u32, u32)>)
    requires
        direction < 0 && needs_next && frame_count > 1 ==> byte_offset >= stride(*geo),
    ensures
        r == window_of(*geo, byte_offset, frame_count, needs_next, next_resident, direction),
{
    if !needs_next || next_resident {
        return Some((byte_offset, frame_count));
    }
    if frame_count <= 1 {
        return None;
    }
    if direction < 0 {
        Some((byte_offset - frame_stride_of(geo), frame_count - 1))
    } else {
        Some((byte_offset, frame_count - 1))
    }
}

/// What making cluster `index` of `asset` resident now does to the tables `m` and the
/// chunks, `r` being the address of the chunk that was leased, or 0. A cluster that is
/// ready is leased. Another is reserved and filled; if the fill fails the reservation is
/// given back.
#[verifier::opaque]
pub open spec fn acquire_fill_outcome<C: SampleConvert>(
    m: Model,
    contexts: Map<u32, FillContext>,
    data: StreamView,
    asset: u32,
    index: u32,
    cluster_size: u32,
    r: usize,
    n: Model,
    new_data: StreamView,
) -> bool {
    let a = m.try_acquire(asset, index);
    if m.try_acquire_result(asset, index) != 0 {
        r == m.try_acquire_result(asset, index) && n == a && new_data == data
    } else {
        exists|p: usize, b: Model, mid: StreamView|
            {
                &&& #[trigger] reserved_for(a, data, asset, index, cluster_size, p, b, mid)
                &&& if p == 0 {
                    r == 0 && n == b && new_data == mid
                } else {
                    filled_or_released::<C>(b, contexts, mid, p, r, n, new_data)
                }
            }
    }
}

/// After the host was asked whether its task makes the reads.
pub open spec fn asked_active(data: StreamView, active: bool) -> StreamView {
    StreamView { asked: data.asked.push(HostEvent::AsyncActive { active }), ..data }
}

/// The reserved chunk at `p` filled, at once or through the host's task as the host says,
/// and then ready; or given back if the fill fails.
pub open spec fn filled_or_released<C: SampleConvert>(
    m: Model,
    contexts: Map<u32, FillContext>,
    data: StreamView,
    p: usize,
    r: usize,
    n: Model,
    new_data: StreamView,
) -> bool {
    exists|active: bool, filled: bool, b: Model|
        {
            &&& #[trigger] fill_now_outcome::<C>(
                m,
                contexts,
                asked_active(data, active),
                p,
                active,
                filled,
                b,
                new_data,
            )
            &&& if filled {
                r == p && n == b.mark_ready(p)
            } else {
                r == 0 && n == b.release(p)
            }
        }
}

impl<B: Backend, H: Host> Streaming<B, H> {
    /// Makes cluster `index` of `asset` resident now and leases it: takes it if it is
    /// ready, otherwise reserves it and reads it. Nothing if it cannot be reserved or
    /// read; nothing stays leased then.
    pub fn acquire_and_fill(&mut self, asset: u32, index: u32, cluster_size: u32) -> (r: Option<
        Lease,
    >)
        requires
            old(self).wf(),
        ensures
            final(self).wf(),
            final(self).contexts == old(self).contexts,
            final(self).follows(*old(self)),
            final(self).res.reclaim == old(self).res.reclaim,
            r is Some <==> lease_addr(r) != 0,
            acquire_fill_outcome::<H>(
                old(self).res@,
                old(self).contexts@,
                old(self).data(),
                asset,
                index,
                cluster_size,
                lease_addr(r),
                final(self).res@,
                final(self).data(),
            ),
    {
        reveal(acquire_fill_outcome);
        match self.res.acquire_leased(asset, index) {
            Some(lease) => {
                proof {
                    self.lemma_silent(*old(self));
                }
                return Some(lease);
            },
            None => {},
        }
        let ghost a = self.res@;
        let lease = match self.request(asset, index, cluster_size) {
            Some(lease) => lease,
            None => {
                assert(reserved_for(
                    a,
                    old(self).data(),
                    asset,
                    index,
                    cluster_size,
                    0,
                    self.res@,
                    self.data(),
                ));
                return None;
            },
        };
        let ghost b = self.res@;
        let ghost mid = self.data();
        let ghost first = *self;
        assert(reserved_for(
            a,
            old(self).data(),
            asset,
            index,
            cluster_size,
            lease@,
            b,
            mid,
        ));
        let active = self.ask_async_active();
        let ghost second = *self;
        assert(self.data() == asked_active(mid, active));
        let filled = self.fill_with(lease.chunk(), active);
        let ghost c = self.res@;
        let ghost after = self.data();
        proof {
            first.lemma_follows(*old(self), second);
            second.lemma_follows(*old(self), *self);
        }
        assert(fill_now_outcome::<H>(
            b,
            self.contexts@,
            asked_active(mid, active),
            lease@,
            active,
            filled,
            c,
            after,
        ));
        if !filled {
            let ghost p = lease@;
            self.res.release_lease(lease);
            assert(filled_or_released::<H>(b, self.contexts@, mid, p, 0, self.res@, self.data()));
            return None;
        }
        self.res.mark_ready(lease.chunk());
        assert(filled_or_released::<H>(
            b,
            self.contexts@,
            mid,
            lease@,
            lease@,
            self.res@,
            self.data(),
        ));
        Some(lease)
    }
}

/// A run of frames that is resident.
#[derive(Clone, Copy, PartialEq, Eq, Debug, Structural)]
pub struct Window {
    /// The address of the frame at the cursor, or 0.
    pub frames: usize,
    pub frame_count: u32,
    /// The address of the chunk that the frames are in, or 0.
    pub chunk: usize,
    /// Where in the chunk's bytes `frames` is.
    pub byte_offset: u32,
}

/// No frames.
pub open spec fn no_window() -> Window {
    Window { frames: 0, frame_count: 0, chunk: 0, byte_offset: 0 }
}

/// The window over the chunk at `p`, whose payload is at `payload`.
pub open spec fn window_at(p: usize, payload: usize, byte_offset: u32, frame_count: u32) -> Window {
    Window {
        frames: payload.wrapping_add(byte_offset as usize),
        frame_count,
        chunk: p,
        byte_offset,
    }
}

fn empty_window() -> (r: Window)
    ensures
        r == no_window(),
{
    Window { frames: 0, frame_count: 0, chunk: 0, byte_offset: 0 }
}

/// A cursor over the frames of one sample.
pub struct Reader {
    asset: u32,
    geometry: Geometry,
    direction: i8,
    hint: ReadHint,
    current_frame: u64,
    /// The last window was not a failure.
    ok: bool,
    /// The lease on the cluster that the cursor is in, and which one that is.
    held: Option<(Lease, u32)>,
}

/// What a reader is, but for its lease.
pub struct ReaderView {
    pub asset: u32,
    pub geometry: Geometry,
    pub direction: i8,
    pub hint: ReadHint,
    pub current_frame: u64,
    pub ok: bool,
    /// The leased chunk's address and cluster.
    pub held: Option<(usize, u32)>,
}

impl Reader {
    pub closed spec fn view(&self) -> ReaderView {
        ReaderView {
            asset: self.asset,
            geometry: self.geometry,
            direction: self.direction,
            hint: self.hint,
            current_frame: self.current_frame,
            ok: self.ok,
            held: match self.held {
                Some((lease, cluster)) => Some((lease@, cluster)),
                None => None,
            },
        }
    }

    /// A lease that is held is on a chunk.
    pub open spec fn wf(&self) -> bool {
        self@.held is Some ==> held_addr(self@.held) != 0
    }

    /// A reader over the sample of `asset`, at `start_frame`. It takes no lease yet. An
    /// asset without a context has no geometry, and is not ok.
    pub fn open<B: Backend, H: Host>(
        s: &Streaming<B, H>,
        asset: u32,
        start_frame: u64,
        direction: i8,
        hint: ReadHint,
    ) -> (r: Reader)
        requires
            s.wf(),
        ensures
            r.wf(),
            r@.asset == asset,
            r@.direction == direction,
            r@.hint == hint,
            r@.current_frame == start_frame,
            r@.held is None,
            r@.ok == s.contexts@.dom().contains(asset),
            r@.geometry == (if s.contexts@.dom().contains(asset) {
                context_geometry(s.contexts@[asset])
            } else {
                Geometry {
                    audio_data_start_bytes: 0,
                    audio_data_length_bytes: 0,
                    cluster_size_bytes: 0,
                    byte_depth: 0,
                    num_channels: 0,
                    raw_data_format: 0,
                }
            }),
    {
        let (geometry, ok): (Geometry, bool) = match fill_context_for(&s.contexts, asset) {
            Some(ctx) => (geometry_from_context(ctx), true),
            None => (Geometry::default(), false),
        };
        Reader { asset, geometry, direction, hint, current_frame: start_frame, ok, held: None }
    }

    /// Gives the held lease back.
    fn release_held<B: Backend, H: Host>(&mut self, s: &mut Streaming<B, H>)
        requires
            old(s).wf(),
        ensures
            final(s).wf(),
            *final(s) == (Streaming { res: final(s).res, ..*old(s) }),
            final(s).res.trace() == old(s).res.trace(),
            final(s).res.backend == old(s).res.backend,
            final(s).res.reclaim == old(s).res.reclaim,
            final(s).res@ == released_held(old(s).res@, old(self)@.held),
            final(self)@ == (ReaderView { held: None, ..old(self)@ }),
    {
        let held = self.held.take();
        match held {
            Some((lease, _)) => s.res.release_lease(lease),
            None => {},
        }
    }

    /// Moves the cursor to `frame`, and gives the held lease back.
    pub fn seek<B: Backend, H: Host>(&mut self, s: &mut Streaming<B, H>, frame: u64)
        requires
            old(s).wf(),
        ensures
            final(s).wf(),
            *final(s) == (Streaming { res: final(s).res, ..*old(s) }),
            final(s).res.trace() == old(s).res.trace(),
            final(s).res.backend == old(s).res.backend,
            final(s).res.reclaim == old(s).res.reclaim,
            final(s).res@ == released_held(old(s).res@, old(self)@.held),
            final(self)@ == (ReaderView { held: None, current_frame: frame, ..old(self)@ }),
    {
        self.release_held(s);
        self.current_frame = frame;
    }

    /// Ends the reader: gives the held lease back.
    pub fn close<B: Backend, H: Host>(self, s: &mut Streaming<B, H>)
        requires
            old(s).wf(),
        ensures
            final(s).wf(),
            *final(s) == (Streaming { res: final(s).res, ..*old(s) }),
            final(s).res.trace() == old(s).res.trace(),
            final(s).res.backend == old(s).res.backend,
            final(s).res.reclaim == old(s).res.reclaim,
            final(s).res@ == released_held(old(s).res@, self@.held),
    {
        match self.held {
            Some((lease, _)) => s.res.release_lease(lease),
            None => {},
        }
    }

    pub fn asset(&self) -> (r: u32)
        ensures
            r == self@.asset,
    {
        self.asset
    }

    pub fn geometry(&self) -> (r: Geometry)
        ensures
            r == self@.geometry,
    {
        self.geometry
    }

    pub fn direction(&self) -> (r: i8)
        ensures
            r == self@.direction,
    {
        self.direction
    }

    pub fn hint(&self) -> (r: ReadHint)
        ensures
            r == self@.hint,
    {
        self.hint
    }

    pub fn current_frame(&self) -> (r: u64)
        ensures
            r == self@.current_frame,
    {
        self.current_frame
    }

    /// Whether the last window was not a failure. The end of the audio is none.
    pub fn ok(&self) -> (r: bool)
        ensures
            r == self@.ok,
    {
        self.ok
    }

    /// The cluster that is pinned.
    pub fn held_cluster(&self) -> (r: Option<u32>)
        ensures
            r == (match self@.held {
                Some((_, cluster)) => Some(cluster),
                None => None,
            }),
    {
        match &self.held {
            Some((_, cluster)) => Some(*cluster),
            None => None,
        }
    }

    /// Makes cluster `index` resident without pinning it; says whether it is.
    fn ensure_neighbour_resident<B: Backend, H: Host>(
        &self,
        s: &mut Streaming<B, H>,
        index: u32,
    ) -> (r: bool)
        requires
            old(s).wf(),
        ensures
            final(s).wf(),
            final(s).contexts == old(s).contexts,
            final(s).follows(*old(s)),
            final(s).res.reclaim == old(s).res.reclaim,
            visited::<H>(
                old(s).res@,
                old(s).contexts@,
                old(s).data(),
                self@.asset,
                index,
                self@.geometry.cluster_size_bytes,
                r,
                final(s).res@,
                final(s).data(),
            ),
    {
        reveal(visited);
        match s.acquire_and_fill(self.asset, index, self.geometry.cluster_size_bytes) {
            Some(lease) => {
                s.res.release_lease(lease);
                true
            },
            None => false,
        }
    }

    /// Pins cluster `cluster`, unless it is pinned: makes it resident now, and gives the
    /// lease held before back. Says whether it is pinned; if not, nothing is.
    fn pin<B: Backend, H: Host>(&mut self, s: &mut Streaming<B, H>, cluster: u32) -> (r: bool)
        requires
            old(s).wf(),
            old(self).wf(),
        ensures
            final(s).wf(),
            final(self).wf(),
            final(s).contexts == old(s).contexts,
            final(s).follows(*old(s)),
            final(s).res.reclaim == old(s).res.reclaim,
            final(self)@ == (ReaderView { held: final(self)@.held, ..old(self)@ }),
            r <==> final(self)@.held is Some,
            r ==> (final(self)@.held->0).1 == cluster,
            old(self)@.held is Some && (old(self)@.held->0).1 == cluster ==> {
                &&& r
                &&& final(self)@ == old(self)@
                &&& *final(s) == *old(s)
            },
            !(old(self)@.held is Some && (old(self)@.held->0).1 == cluster) ==> pinned_anew::<H>(
                old(s).res@,
                old(s).contexts@,
                old(s).data(),
                old(self)@.asset,
                cluster,
                old(self)@.geometry.cluster_size_bytes,
                old(self)@.held,
                held_addr(final(self)@.held),
                final(s).res@,
                final(s).data(),
            ),
    {
        reveal(pinned_anew);
        proof {
            s.lemma_silent(*old(s));
        }
        match &self.held {
            Some((_, c)) => if *c == cluster {
                return true;
            },
            None => {},
        }
        let lease = s.acquire_and_fill(self.asset, cluster, self.geometry.cluster_size_bytes);
        self.release_held(s);
        match lease {
            Some(l) => {
                self.held = Some((l, cluster));
                true
            },
            None => false,
        }
    }

    /// The run of frames at the cursor, in the reader's direction, that lies in the
    /// cluster it is in. The cluster is made resident now, if need be, and pinned. A frame
    /// that reaches into the next cluster is part of the run if that can be made resident.
    /// No frames at the end of the audio, with `ok`, and on a failure, without.
    pub fn window<B: Backend, H: Host>(&mut self, s: &mut Streaming<B, H>) -> (r: Window)
        requires
            old(s).wf(),
            old(self).wf(),
        ensures
            final(s).wf(),
            final(self).wf(),
            final(s).contexts == old(s).contexts,
            final(s).follows(*old(s)),
            final(s).res.reclaim == old(s).res.reclaim,
            final(self)@ == (ReaderView {
                held: final(self)@.held,
                ok: final(self)@.ok,
                ..old(self)@
            }),
            window_outcome::<H>(
                old(self)@,
                old(s).res@,
                old(s).contexts@,
                old(s).data(),
                r,
                final(self)@,
                final(s).res@,
                final(s).data(),
            ),
            !(window_plan(
                old(self)@.geometry,
                old(self)@.current_frame,
                old(self)@.direction,
            ) is Serve) ==> *final(s) == *old(s),
    {
        reveal(window_outcome);
        proof {
            s.lemma_silent(*old(s));
        }
        self.ok = true;
        let (cluster, byte_offset, frame_count, needs_next): (u32, u32, u32, bool) =
            match plan_window(&self.geometry, self.current_frame, self.direction) {
            WindowPlan::Malformed => {
                self.ok = false;
                return empty_window();
            },
            WindowPlan::End => {
                return empty_window();
            },
            WindowPlan::Serve { cluster, byte_offset, frame_count, needs_next } => (
                cluster,
                byte_offset,
                frame_count,
                needs_next,
            ),
        };
        proof {
            lemma_plan(self.geometry, self.current_frame, self.direction);
        }
        let ghost v = old(self)@;
        let ghost m0 = s.res@;
        let ghost chunks0 = s.data();
        let pinned = self.pin(s, cluster);
        let ghost q = held_addr(self@.held);
        let ghost b = s.res@;
        let ghost mid = s.data();
        let ghost first = *s;
        proof {
            first.lemma_silent(first);
        }
        proof {
            assert(pin_step::<H>(v, m0, s.contexts@, chunks0, cluster, q, b, mid));
        }
        if !pinned {
            self.ok = false;
            assert(serve_step::<H>(
                v,
                b,
                s.contexts@,
                mid,
                0,
                needs_next,
                cluster,
                true,
                None,
                b,
                mid,
            ));
            return empty_window();
        }
        let next_resident = if needs_next {
            self.ensure_neighbour_resident(s, cluster + 1)
        } else {
            true
        };
        proof {
            first.lemma_follows(*old(s), *s);
        }
        assert(serve_step::<H>(
            v,
            b,
            s.contexts@,
            mid,
            q,
            needs_next,
            cluster,
            next_resident,
            self@.held,
            s.res@,
            s.data(),
        ));
        let (offset, count): (u32, u32) = match settle_window(
            &self.geometry,
            byte_offset,
            frame_count,
            needs_next,
            next_resident,
            self.direction,
        ) {
            Some(z) => z,
            None => {
                self.ok = false;
                return empty_window();
            },
        };
        let p: usize = match &self.held {
            Some((lease, _)) => lease.chunk().as_ptr(),
            None => 0,
        };
        if !s.chunks.contains(p) {
            self.ok = false;
            assert(served_window(
                v,
                q,
                byte_offset,
                frame_count,
                needs_next,
                next_resident,
                s.chunks@,
            ) == no_window());
            return empty_window();
        }
        let payload: usize = s.chunks.payload(p);
        Window {
            frames: payload.wrapping_add(offset as usize),
            frame_count: count,
            chunk: p,
            byte_offset: offset,
        }
    }

    /// Moves the cursor by `frames` frames in the reader's direction, but not below 0 or
    /// past the sample's last frame. If it leaves the pinned cluster the lease is given
    /// back.
    pub fn advance<B: Backend, H: Host>(&mut self, s: &mut Streaming<B, H>, frames: u32)
        requires
            old(s).wf(),
        ensures
            final(s).wf(),
            *final(s) == (Streaming { res: final(s).res, ..*old(s) }),
            final(s).res.trace() == old(s).res.trace(),
            final(s).res.backend == old(s).res.backend,
            final(s).res.reclaim == old(s).res.reclaim,
            final(self)@ == advanced_reader(old(self)@, frames),
            final(s).res@ == (if final(self)@.held == old(self)@.held {
                old(s).res@
            } else {
                released_held(old(s).res@, old(self)@.held)
            }),
    {
        let ghost f = advanced(self.geometry, self.current_frame, self.direction, frames);
        assert(-0x80_0000_0000 <= frames * self.direction <= 0x80_0000_0000) by (nonlinear_arith)
            requires
                0 <= frames <= 0xFFFF_FFFF,
                -128 <= self.direction <= 127,
        ;
        let delta: i64 = frames as i64 * self.direction as i64;
        let mut frame: u64 = if delta >= 0 {
            self.current_frame.saturating_add(delta as u64)
        } else {
            self.current_frame.saturating_sub((-delta) as u64)
        };
        if self.geometry.audio_data_length_bytes != 0 && self.geometry.audio_data_length_bytes
            != UNKNOWN_LENGTH_SENTINEL {
            let frame_stride: u64 = frame_stride_of(&self.geometry) as u64;
            if frame_stride != 0 {
                let total_frames: u64 = self.geometry.audio_data_length_bytes / frame_stride;
                if frame > total_frames {
                    frame = total_frames;
                }
            }
        }
        assert(frame == f);
        self.current_frame = frame;
        let held: Option<u32> = self.held_cluster();
        match held {
            Some(cluster) => {
                let still_within = match locate(frame, &self.geometry) {
                    Some((c, _, _)) => c == cluster,
                    None => false,
                };
                if !still_within {
                    self.release_held(s);
                }
            },
            None => {},
        }
    }
}

/// The reader `v` after `frames` frames: its lease stays if its cluster does.
pub open spec fn advanced_reader(v: ReaderView, frames: u32) -> ReaderView {
    let f = advanced(v.geometry, v.current_frame, v.direction, frames);
    let stays = v.held is Some && well_formed(v.geometry) && frame_cluster(f, v.geometry) == (
    v.held->0).1;
    ReaderView {
        current_frame: f,
        held: if stays {
            v.held
        } else {
            None
        },
        ..v
    }
}

/// `dest` with the bytes of `src` from `from` to `from + n` written at `at`.
pub open spec fn copied(dest: Seq<u8>, at: int, src: Seq<u8>, from: int, n: int) -> Seq<u8> {
    Seq::new(
        dest.len(),
        |i: int|
            if at <= i < at + n {
                src[from + i - at]
            } else {
                dest[i]
            },
    )
}

/// Copies `n` bytes of `src` from `from` on to `at` in `dest`.
pub fn copy_bytes(dest: &mut Vec<u8>, at: usize, src: &Vec<u8>, from: usize, n: usize)
    requires
        at + n <= old(dest)@.len(),
        from + n <= src@.len(),
    ensures
        final(dest)@ == copied(old(dest)@, at as int, src@, from as int, n as int),
{
    let ghost d = dest@;
    let total: usize = dest.len();
    let available: usize = src.len();
    let mut i: usize = 0;
    while i < n
        invariant
            total == d.len(),
            available == src@.len(),
            i <= n,
            at + n <= d.len(),
            from + n <= src@.len(),
            dest@ == copied(d, at as int, src@, from as int, i as int),
        decreases n - i,
    {
        dest.set(at + i, src[from + i]);
        i = i + 1;
        assert(dest@ =~= copied(d, at as int, src@, from as int, i as int));
    }
    assert(dest@ =~= copied(d, at as int, src@, from as int, n as int));
}

/// How many frames one step of a read copies: as many as the window has, as are still
/// wanted, and as there is room for.
pub open spec fn step_frames(in_window: int, wanted: int, room: int, st: int) -> int {
    let by_room = room / st;
    let a = if in_window < wanted {
        in_window
    } else {
        wanted
    };
    if a < by_room {
        a
    } else {
        by_room
    }
}

/// Where a read is between two windows.
pub struct ReadState {
    pub reader: ReaderView,
    pub tables: Model,
    pub data: StreamView,
    pub dest: Seq<u8>,
    /// Frames copied so far.
    pub written: int,
}

/// Frames that the window `w`, over the bytes `chunks`, adds to the read at `a`: as many as
/// it has, as are still wanted and as there is room for, or none if the chunk does not
/// hold them.
pub open spec fn frames_of(
    a: ReadState,
    w: Window,
    chunks: Map<usize, StoredChunk>,
    num_frames: int,
) -> int {
    let st = stride(a.reader.geometry);
    let n = step_frames(
        w.frame_count as int,
        num_frames - a.written,
        a.dest.len() - a.written * st,
        st,
    );
    if chunks.dom().contains(w.chunk) && w.byte_offset + n * st <= chunks[w.chunk].bytes@.len() {
        n
    } else {
        0
    }
}

/// One step of a read: a window, the copy of its frames, and the cursor moved past them.
#[verifier::opaque]
pub open spec fn read_step<C: SampleConvert>(
    contexts: Map<u32, FillContext>,
    num_frames: int,
    a: ReadState,
    b: ReadState,
) -> bool {
    exists|w: Window, v: ReaderView, m: Model|
        {
            let st = stride(a.reader.geometry);
            let n = frames_of(a, w, b.data.chunks, num_frames);
            &&& #[trigger] window_outcome::<C>(
                a.reader,
                a.tables,
                contexts,
                a.data,
                w,
                v,
                m,
                b.data,
            )
            &&& a.written < num_frames
            &&& n > 0
            &&& b.dest == copied(
                a.dest,
                a.written * st,
                b.data.chunks[w.chunk].bytes@,
                w.byte_offset as int,
                n * st,
            )
            &&& b.written == a.written + n
            &&& b.reader == advanced_reader(v, n as u32)
            &&& b.tables == (if b.reader.held == v.held {
                m
            } else {
                released_held(m, v.held)
            })
        }
}

/// The end of a read at `a`: enough frames are copied, or a last window adds none. The
/// reader's lease is given back.
#[verifier::opaque]
pub open spec fn read_end<C: SampleConvert>(
    contexts: Map<u32, FillContext>,
    num_frames: int,
    a: ReadState,
    n: Model,
    new_data: StreamView,
) -> bool {
    if a.written >= num_frames {
        n == released_held(a.tables, a.reader.held) && new_data == a.data
    } else {
        exists|w: Window, v: ReaderView, m: Model|
            {
                &&& #[trigger] window_outcome::<C>(
                    a.reader,
                    a.tables,
                    contexts,
                    a.data,
                    w,
                    v,
                    m,
                    new_data,
                )
                &&& frames_of(a, w, new_data.chunks, num_frames) == 0
                &&& n == released_held(m, v.held)
            }
    }
}

/// The reader that a read starts with: forward, sharing what is resident.
pub open spec fn opened_reader(geo: Geometry, asset: u32, frame: u64) -> ReaderView {
    ReaderView {
        asset,
        geometry: geo,
        direction: 1,
        hint: ReadHint::Cached,
        current_frame: frame,
        ok: true,
        held: None,
    }
}

/// The steps of a read lead from one of `t` to the next.
#[verifier::opaque]
pub open spec fn read_steps<C: SampleConvert>(
    contexts: Map<u32, FillContext>,
    num_frames: int,
    t: Seq<ReadState>,
) -> bool {
    forall|i: int|
        0 <= i < t.len() - 1 ==> read_step::<C>(contexts, num_frames, #[trigger] t[i], t[i + 1])
}

/// What a read does: nothing for an asset without a context or frames; otherwise step by
/// step from a reader at `start_frame` to the end of the read. It leaves `dest` past the
/// frames that were copied as it was.
pub open spec fn read_outcome<C: SampleConvert>(
    m: Model,
    contexts: Map<u32, FillContext>,
    data: StreamView,
    asset: u32,
    start_frame: u64,
    num_frames: u32,
    dest: Seq<u8>,
    r: u32,
    new_dest: Seq<u8>,
    n: Model,
    new_data: StreamView,
) -> bool {
    let geo = context_geometry(contexts[asset]);
    let st = stride(geo);
    if !contexts.dom().contains(asset) || st == 0 {
        r == 0 && new_dest == dest && n == m && new_data == data
    } else {
        &&& r * st <= dest.len()
        &&& forall|i: int| r * st <= i < dest.len() ==> #[trigger] new_dest[i] == dest[i]
        &&& exists|t: Seq<ReadState>|
            {
                &&& #[trigger] read_steps::<C>(contexts, num_frames as int, t)
                &&& t.len() > 0
                &&& t[0] == (ReadState {
                    reader: opened_reader(geo, asset, start_frame),
                    tables: m,
                    data,
                    dest,
                    written: 0,
                })
                &&& t.last().written == r
                &&& t.last().dest == new_dest
                &&& read_end::<C>(contexts, num_frames as int, t.last(), n, new_data)
            }
    }
}

impl Reader {
    /// One step of a read that has copied `written` frames: a window, the copy of its frames
    /// and the cursor moved past them. Gives the number of frames; 0 ends the read.
    fn read_once<B: Backend, H: Host>(
        &mut self,
        s: &mut Streaming<B, H>,
        num_frames: u32,
        written: u32,
        dest: &mut Vec<u8>,
    ) -> (n: u32)
        requires
            old(s).wf(),
            old(self).wf(),
            stride(old(self)@.geometry) > 0,
            written < num_frames,
            written * stride(old(self)@.geometry) <= old(dest)@.len(),
        ensures
            final(s).wf(),
            final(self).wf(),
            final(s).contexts == old(s).contexts,
            final(s).follows(*old(s)),
            final(s).res.reclaim == old(s).res.reclaim,
            final(self)@.geometry == old(self)@.geometry,
            final(dest)@.len() == old(dest)@.len(),
            written + n <= num_frames,
            (written + n) * stride(old(self)@.geometry) <= old(dest)@.len(),
            forall|i: int|
                (written + n) * stride(old(self)@.geometry) <= i < old(dest)@.len()
                    ==> #[trigger] final(dest)@[i] == old(dest)@[i],
            ({
                let a = ReadState {
                    reader: old(self)@,
                    tables: old(s).res@,
                    data: old(s).data(),
                    dest: old(dest)@,
                    written: written as int,
                };
                if n > 0 {
                    read_step::<H>(
                        old(s).contexts@,
                        num_frames as int,
                        a,
                        ReadState {
                            reader: final(self)@,
                            tables: final(s).res@,
                            data: final(s).data(),
                            dest: final(dest)@,
                            written: written + n,
                        },
                    )
                } else {
                    &&& final(dest)@ == old(dest)@
                    &&& exists|w: Window|
                        {
                            &&& #[trigger] window_outcome::<H>(
                                a.reader,
                                a.tables,
                                old(s).contexts@,
                                a.data,
                                w,
                                final(self)@,
                                final(s).res@,
                                final(s).data(),
                            )
                            &&& frames_of(a, w, final(s).chunks@, num_frames as int) == 0
                        }
                }
            }),
    {
        let ghost a = ReadState {
            reader: self@,
            tables: s.res@,
            data: s.data(),
            dest: dest@,
            written: written as int,
        };
        let st: usize = frame_stride_of(&self.geometry) as usize;
        let dest_bytes: usize = dest.len();
        proof {
            assert(0 <= written * st) by (nonlinear_arith)
                requires
                    st > 0,
                    written >= 0,
            ;
        }
        let written_bytes: usize = written as usize * st;
        let w = self.window(s);
        let ghost v = self@;
        let ghost m = s.res@;
        let ghost after = s.data();
        assert(window_outcome::<H>(a.reader, a.tables, s.contexts@, a.data, w, v, m, after));
        let wanted: u32 = num_frames - written;
        let by_room: usize = (dest_bytes - written_bytes) / st;
        let mut n: u32 = if w.frame_count < wanted {
            w.frame_count
        } else {
            wanted
        };
        if by_room < n as usize {
            n = by_room as u32;
        }
        proof {
            lemma_whole(dest_bytes - written_bytes, st as int);
            assert(n * st <= by_room * st) by (nonlinear_arith)
                requires
                    n <= by_room,
                    st > 0,
            ;
            assert((written + n) * st == written * st + n * st) by (nonlinear_arith);
            assert(n * st >= 0) by (nonlinear_arith)
                requires
                    n >= 0,
                    st > 0,
            ;
        }
        let len: usize = n as usize * st;
        let available = match s.chunks.bytes(w.chunk) {
            Some(bytes) => w.byte_offset as usize <= bytes.len() && len <= bytes.len()
                - w.byte_offset as usize,
            None => false,
        };
        assert(frames_of(a, w, after.chunks, num_frames as int) == if available {
            n as int
        } else {
            0
        });
        if n == 0 || !available {
            assert((written + 0) * st == written * st);
            return 0;
        }
        match s.chunks.bytes(w.chunk) {
            Some(bytes) => copy_bytes(dest, written_bytes, bytes, w.byte_offset as usize, len),
            None => {},
        }
        self.advance(s, n);
        proof {
            let b = ReadState {
                reader: self@,
                tables: s.res@,
                data: s.data(),
                dest: dest@,
                written: written + n,
            };
            assert(window_outcome::<H>(
                a.reader,
                a.tables,
                s.contexts@,
                a.data,
                w,
                v,
                m,
                b.data,
            ));
            reveal(read_step);
            assert(read_step::<H>(s.contexts@, num_frames as int, a, b));
        }
        n
    }

    /// Copies up to `num_frames` frames of the sample of `asset`, from `start_frame` on,
    /// into `dest`: window by window, until the audio ends, enough frames are copied, or
    /// there is no room for another. Gives the number of frames copied. The rest of `dest`
    /// is left as it is, and nothing stays pinned.
    pub fn read<B: Backend, H: Host>(
        s: &mut Streaming<B, H>,
        asset: u32,
        start_frame: u64,
        num_frames: u32,
        dest: &mut Vec<u8>,
    ) -> (r: u32)
        requires
            old(s).wf(),
        ensures
            final(s).wf(),
            final(s).contexts == old(s).contexts,
            final(s).follows(*old(s)),
            final(s).res.reclaim == old(s).res.reclaim,
            final(dest)@.len() == old(dest)@.len(),
            r <= num_frames,
            read_outcome::<H>(
                old(s).res@,
                old(s).contexts@,
                old(s).data(),
                asset,
                start_frame,
                num_frames,
                old(dest)@,
                r,
                final(dest)@,
                final(s).res@,
                final(s).data(),
            ),
    {
        let mut reader = Reader::open(s, asset, start_frame, 1, ReadHint::Cached);
        let st: u32 = frame_stride_of(&reader.geometry);
        let ghost geo = reader@.geometry;
        proof {
            if !s.contexts@.dom().contains(asset) {
                assert(geo.byte_depth * geo.num_channels == 0) by (nonlinear_arith)
                    requires
                        geo.byte_depth == 0,
                ;
            }
        }
        proof {
            s.lemma_silent(*old(s));
        }
        if st == 0 {
            return 0;
        }
        let ghost d0 = dest@;
        let mut written: u32 = 0;
        let ghost ctxs = s.contexts@;
        let ghost wanted_total = num_frames as int;
        let ghost mut t: Seq<ReadState> = seq![
            ReadState {
                reader: reader@,
                tables: s.res@,
                data: s.data(),
                dest: dest@,
                written: 0,
            },
        ];
        let ghost first = t[0];
        proof {
            reveal(read_steps);
        }
        while written < num_frames
            invariant
                s.wf(),
                s.contexts == old(s).contexts,
                s.follows(*old(s)),
                ctxs == s.contexts@,
                s.res.reclaim == old(s).res.reclaim,
                reader.wf(),
                reader@.geometry == geo,
                st == stride(geo),
                st > 0,
                dest@.len() == d0.len(),
                written <= num_frames,
                wanted_total == num_frames,
                d0 == old(dest)@,
                ctxs.dom().contains(asset),
                geo == context_geometry(ctxs[asset]),
                first == (ReadState {
                    reader: opened_reader(geo, asset, start_frame),
                    tables: old(s).res@,
                    data: old(s).data(),
                    dest: old(dest)@,
                    written: 0,
                }),
                written * st <= d0.len(),
                forall|i: int| written * st <= i < d0.len() ==> #[trigger] dest@[i] == d0[i],
                t.len() > 0,
                t[0] == first,
                t.last() == (ReadState {
                    reader: reader@,
                    tables: s.res@,
                    data: s.data(),
                    dest: dest@,
                    written: written as int,
                }),
                read_steps::<H>(ctxs, wanted_total, t),
            decreases num_frames - written,
        {
            let ghost a = t.last();
            let ghost before = *s;
            let n: u32 = reader.read_once(s, num_frames, written, dest);
            proof {
                before.lemma_follows(*old(s), *s);
            }
            if n == 0 {
                reader.close(s);
                proof {
                    reveal(read_end);
                    assert(read_end::<H>(ctxs, wanted_total, a, s.res@, s.data()));
                }
                return written;
            }
            proof {
                assert(written * st <= (written + n) * st) by (nonlinear_arith)
                    requires
                        n >= 0,
                        st > 0,
                ;
            }
            written = written + n;
            proof {
                let b = ReadState {
                    reader: reader@,
                    tables: s.res@,
                    data: s.data(),
                    dest: dest@,
                    written: written as int,
                };
                lemma_read_steps::<H>(ctxs, wanted_total, t, b);
                t = t.push(b);
            }
        }
        reader.close(s);
        proof {
            reveal(read_end);
            assert(read_end::<H>(ctxs, wanted_total, t.last(), s.res@, s.data()));
        }
        written
    }
}

/// One more step.
proof fn lemma_read_steps<C: SampleConvert>(
    contexts: Map<u32, FillContext>,
    num_frames: int,
    t: Seq<ReadState>,
    b: ReadState,
)
    requires
        t.len() > 0,
        read_steps::<C>(contexts, num_frames, t),
        read_step::<C>(contexts, num_frames, t.last(), b),
    ensures
        read_steps::<C>(contexts, num_frames, t.push(b)),
        t.push(b).len() == t.len() + 1,
        t.push(b)[0] == t[0],
        t.push(b).last() == b,
{
    reveal(read_steps);
    let u = t.push(b);
    assert forall|i: int| 0 <= i < u.len() - 1 implies read_step::<C>(
        contexts,
        num_frames,
        #[trigger] u[i],
        u[i + 1],
    ) by {
        if i < t.len() - 1 {
            assert(u[i] == t[i] && u[i + 1] == t[i + 1]);
        } else {
            assert(u[i] == t.last() && u[i + 1] == b);
        }
    }
}

/// Where a cursor at `frame` is after `frames` frames in `direction`: not below 0, and not
/// past the last frame if the length is known.
pub open spec fn advanced(geo: Geometry, frame: u64, direction: i8, frames: u32) -> u64 {
    let to = frame + frames * direction;
    let low = if to < 0 {
        0
    } else {
        clamp64(to)
    };
    let total = geo.audio_data_length_bytes as int / stride(geo);
    (if geo.length_known() && stride(geo) > 0 && low > total {
        total
    } else {
        low
    }) as u64
}

/// The address of the chunk that a reader holds, or 0.
pub open spec fn held_addr(held: Option<(usize, u32)>) -> usize {
    match held {
        Some((p, _)) => p,
        None => 0,
    }
}

/// The reader `v` holds cluster `cluster`.
pub open spec fn holds_cluster(v: ReaderView, cluster: u32) -> bool {
    v.held is Some && (v.held->0).1 == cluster
}

/// The first step of a window: cluster `cluster` is held, at `q`, or made resident now.
pub open spec fn pin_step<C: SampleConvert>(
    v: ReaderView,
    m: Model,
    contexts: Map<u32, FillContext>,
    data: StreamView,
    cluster: u32,
    q: usize,
    n: Model,
    new_data: StreamView,
) -> bool {
    if holds_cluster(v, cluster) {
        q == held_addr(v.held) && n == m && new_data == data
    } else {
        pinned_anew::<C>(
            m,
            contexts,
            data,
            v.asset,
            cluster,
            v.geometry.cluster_size_bytes,
            v.held,
            q,
            n,
            new_data,
        )
    }
}

/// The second step: if the cluster is held and a frame reaches into the next one, that is
/// made resident too, and not kept. `next` says whether it could be.
pub open spec fn serve_step<C: SampleConvert>(
    v: ReaderView,
    m: Model,
    contexts: Map<u32, FillContext>,
    data: StreamView,
    q: usize,
    needs_next: bool,
    cluster: u32,
    next: bool,
    held: Option<(usize, u32)>,
    n: Model,
    new_data: StreamView,
) -> bool {
    if q == 0 {
        held is None && n == m && new_data == data
    } else {
        &&& held == Some((q, cluster))
        &&& if needs_next {
            visited::<C>(
                m,
                contexts,
                data,
                v.asset,
                (cluster + 1) as u32,
                v.geometry.cluster_size_bytes,
                next,
                n,
                new_data,
            )
        } else {
            next && n == m && new_data == data
        }
    }
}

/// The window that the two steps leave: none if no cluster is held, its chunk is not known,
/// or the only frame reaches into a next cluster that is not there.
pub open spec fn served_window(
    v: ReaderView,
    q: usize,
    byte_offset: u32,
    frame_count: u32,
    needs_next: bool,
    next: bool,
    chunks: Map<usize, StoredChunk>,
) -> Window {
    match window_of(v.geometry, byte_offset, frame_count, needs_next, next, v.direction) {
        Some((offset, count)) => if q != 0 && chunks.dom().contains(q) {
            window_at(q, chunks[q].header.payload, offset, count)
        } else {
            no_window()
        },
        None => no_window(),
    }
}

/// What a window of the reader `v` does and gives, in all. A geometry that is malformed is
/// a failure; the end of the audio is none. Otherwise the cluster is pinned, the next one
/// visited if a frame reaches into it, and the window is what that leaves; no frames are
/// then a failure.
#[verifier::opaque]
pub open spec fn window_outcome<C: SampleConvert>(
    v: ReaderView,
    m: Model,
    contexts: Map<u32, FillContext>,
    data: StreamView,
    r: Window,
    w: ReaderView,
    n: Model,
    new_data: StreamView,
) -> bool {
    &&& w == (ReaderView { held: w.held, ok: w.ok, ..v })
    &&& match window_plan(v.geometry, v.current_frame, v.direction) {
        WindowPlan::Malformed => {
            &&& r == no_window()
            &&& w == (ReaderView { ok: false, ..v })
            &&& n == m
            &&& new_data == data
        },
        WindowPlan::End => {
            &&& r == no_window()
            &&& w == (ReaderView { ok: true, ..v })
            &&& n == m
            &&& new_data == data
        },
        WindowPlan::Serve { cluster, byte_offset, frame_count, needs_next } => {
            &&& w.ok <==> r.frame_count > 0
            &&& w.held is Some ==> (w.held->0).1 == cluster
            &&& r.frame_count > 0 ==> w.held == Some((r.chunk, cluster))
                && new_data.chunks.dom().contains(r.chunk)
            &&& exists|q: usize, b: Model, mid: StreamView, next: bool|
                {
                    &&& #[trigger] pin_step::<C>(v, m, contexts, data, cluster, q, b, mid)
                    &&& #[trigger] serve_step::<C>(
                        v,
                        b,
                        contexts,
                        mid,
                        q,
                        needs_next,
                        cluster,
                        next,
                        w.held,
                        n,
                        new_data,
                    )
                    &&& r == served_window(
                        v,
                        q,
                        byte_offset,
                        frame_count,
                        needs_next,
                        next,
                        new_data.chunks,
                    )
                }
        },
    }
}

/// After the lease that a reader holds was given back.
pub open spec fn released_held(m: Model, held: Option<(usize, u32)>) -> Model {
    match held {
        Some((p, _)) => m.release(p),
        None => m,
    }
}

/// Cluster `index` made resident now, if possible, and not kept: its lease is given back.
#[verifier::opaque]
pub open spec fn visited<C: SampleConvert>(
    m: Model,
    contexts: Map<u32, FillContext>,
    data: StreamView,
    asset: u32,
    index: u32,
    cluster_size: u32,
    r: bool,
    n: Model,
    new_data: StreamView,
) -> bool {
    exists|p: usize, b: Model|
        {
            &&& #[trigger] acquire_fill_outcome::<C>(
                m,
                contexts,
                data,
                asset,
                index,
                cluster_size,
                p,
                b,
                new_data,
            )
            &&& r == (p != 0)
            &&& n == (if p != 0 {
                b.release(p)
            } else {
                b
            })
        }
}

/// Cluster `index` made resident now, if possible, at `p`, and then the lease `held` given
/// back.
#[verifier::opaque]
pub open spec fn pinned_anew<C: SampleConvert>(
    m: Model,
    contexts: Map<u32, FillContext>,
    data: StreamView,
    asset: u32,
    index: u32,
    cluster_size: u32,
    held: Option<(usize, u32)>,
    p: usize,
    n: Model,
    new_data: StreamView,
) -> bool {
    exists|b: Model| #[trigger]
        acquire_fill_outcome::<C>(m, contexts, data, asset, index, cluster_size, p, b, new_data)
            && n == released_held(b, held)
}

/// What a plan to serve frames says of its numbers.
pub proof fn lemma_plan(geo: Geometry, frame: u64, direction: i8)
    ensures
        match window_plan(geo, frame, direction) {
            WindowPlan::Serve { cluster, byte_offset, frame_count, needs_next } => {
                &&& well_formed(geo)
                &&& frame_count >= 1
                &&& needs_next ==> cluster < u32::MAX
                &&& cluster == frame_cluster(frame, geo)
                &&& byte_offset == frame_offset(frame, geo)
                &&& direction < 0 && frame_count > 1 ==> byte_offset >= stride(geo)
            },
            _ => true,
        },
{
    if well_formed(geo) {
        let cs = geo.cluster_size_bytes as int;
        let pos = frame_pos(frame, geo);
        let st = stride(geo);
        assert(0 <= frame * st) by (nonlinear_arith)
            requires
                0 <= frame,
                0 < st,
        ;
        vstd::arithmetic::div_mod::lemma_mod_bound(pos, cs);
        vstd::arithmetic::div_mod::lemma_div_pos_is_pos(pos, cs);
        let offset = frame_offset(frame, geo);
        let left = geo.resident(frame_cluster(frame, geo)) - offset;
        lemma_whole(offset, st);
        if left > 0 {
            lemma_whole(left, st);
        }
        if offset / st >= 1 {
            assert(offset >= st) by (nonlinear_arith)
                requires
                    offset == (offset / st) * st + offset % st,
                    0 <= offset % st,
                    offset / st >= 1,
                    st > 0,
            ;
        }
    }
}

/// What `peek` gives and does: the address of the frame and the number of whole frames from
/// there to the end of its cluster's audio, or back to the cluster's start. No address if
/// there is no audio at the frame, or its cluster is not resident and ready. Nothing is
/// leased or loaded.
pub open spec fn peek_outcome(
    m: Model,
    contexts: Map<u32, FillContext>,
    chunks: Map<usize, StoredChunk>,
    asset: u32,
    frame: u64,
    direction: i8,
    r: (usize, u32),
    n: Model,
) -> bool {
    let geo = context_geometry(contexts[asset]);
    let cluster = frame_cluster(frame, geo);
    let offset = frame_offset(frame, geo);
    let left = geo.resident(cluster) - offset;
    if !contexts.dom().contains(asset) || !well_formed(geo) || left <= 0 {
        r == (0usize, 0u32) && n == m
    } else {
        let a = m.searched(asset, cluster as u32);
        let p = m.peek_result(asset, cluster as u32);
        if p == 0 {
            r == (0usize, 0u32) && n == a
        } else {
            &&& n == a.searched_ptr(p)
            &&& if ready_at(a, p) && chunks.dom().contains(p) {
                &&& r.0 == chunks[p].header.payload.wrapping_add(offset as usize)
                &&& r.1 == (if direction >= 0 {
                    left / stride(geo)
                } else {
                    offset / stride(geo) + 1
                })
            } else {
                r == (0usize, 0u32)
            }
        }
    }
}

/// The chunk at `p` is resident and ready.
pub open spec fn ready_at(m: Model, p: usize) -> bool {
    match m.slot_at(p) {
        Some(i) => m.chunks[i].ready,
        None => false,
    }
}

/// The frames at `start_frame` of the sample of `asset`, if they are resident. See
/// `peek_outcome`. A count of 0 with an address is a frame that is not whole in its cluster.
pub fn peek<B: Backend, H: Host>(
    s: &mut Streaming<B, H>,
    asset: u32,
    start_frame: u64,
    direction: i8,
) -> (r: (usize, u32))
    requires
        old(s).wf(),
    ensures
        final(s).wf(),
        *final(s) == (Streaming { res: final(s).res, ..*old(s) }),
        final(s).res.trace() == old(s).res.trace(),
        final(s).res.backend == old(s).res.backend,
        final(s).res.reclaim == old(s).res.reclaim,
        peek_outcome(
            old(s).res@,
            old(s).contexts@,
            old(s).chunks@,
            asset,
            start_frame,
            direction,
            r,
            final(s).res@,
        ),
{
    let geometry = match fill_context_for(&s.contexts, asset) {
        Some(ctx) => geometry_from_context(ctx),
        None => {
            return (0, 0);
        },
    };
    let (cluster, byte_offset, resident): (u32, u32, u32) = match locate(start_frame, &geometry) {
        Some(z) => z,
        None => {
            return (0, 0);
        },
    };
    if byte_offset >= resident {
        return (0, 0);
    }
    let frame_stride: u32 = frame_stride_of(&geometry);
    let chunk = match s.res.peek(asset, cluster) {
        Some(c) => c,
        None => {
            return (0, 0);
        },
    };
    if !s.res.is_ready(chunk) {
        return (0, 0);
    }
    if !s.chunks.contains(chunk.as_ptr()) {
        return (0, 0);
    }
    proof {
        lemma_whole(byte_offset as int, frame_stride as int);
    }
    let frame_count: u32 = if direction >= 0 {
        (resident - byte_offset) / frame_stride
    } else {
        byte_offset / frame_stride + 1
    };
    let payload: usize = s.chunks.payload(chunk.as_ptr());
    (payload.wrapping_add(byte_offset as usize), frame_count)
}

/// One step of invalidating: the chunk of cluster `index`, if it is resident, is marked
/// unloadable and taken out of the load queue.
pub open spec fn invalidate_step(
    m: Model,
    chunks: Map<usize, StoredChunk>,
    asset: u32,
    index: u32,
) -> (Model, Map<usize, StoredChunk>) {
    let a = m.searched(asset, index);
    let p = m.peek_result(asset, index);
    if p == 0 {
        (a, chunks)
    } else {
        let b = a.searched_ptr(p);
        (
            match a.slot_at(p) {
                Some(i) => b.dequeue(i as u32),
                None => b.dequeue(NO_SLOT),
            },
            if chunks.dom().contains(p) {
                chunks.insert(
                    p,
                    StoredChunk {
                        header: StreamedChunk { unloadable: true, ..chunks[p].header },
                        ..chunks[p]
                    },
                )
            } else {
                chunks
            },
        )
    }
}

/// The first `n` clusters invalidated.
pub open spec fn invalidated(
    m: Model,
    chunks: Map<usize, StoredChunk>,
    asset: u32,
    n: nat,
) -> (Model, Map<usize, StoredChunk>)
    decreases n,
{
    if n == 0 {
        (m, chunks)
    } else {
        let (a, c) = invalidated(m, chunks, asset, (n - 1) as nat);
        invalidate_step(a, c, asset, (n - 1) as u32)
    }
}

/// How many clusters the file of a context has up to the end of the audio data; none that
/// can be told while its length is not known, or if its geometry is malformed.
pub open spec fn file_clusters(ctx: FillContext) -> int {
    let geo = context_geometry(ctx);
    let n = (clamp64(geo.end()) + ctx.cluster_size - 1) / ctx.cluster_size as int;
    if ctx.cluster_size == 0 || ctx.cluster_size_magnitude >= 64 || !geo.length_known() {
        0
    } else if n > u32::MAX {
        u32::MAX as int
    } else {
        n
    }
}

/// Invalidates every resident cluster of the sample of `asset`, from the start of its file
/// to the end of its audio: each is marked unloadable, so that a fill under way does not
/// count, and taken out of the load queue.
pub fn invalidate<B: Backend, H: Host>(s: &mut Streaming<B, H>, asset: u32)
    requires
        old(s).wf(),
    ensures
        final(s).wf(),
        final(s).contexts == old(s).contexts,
        final(s).host == old(s).host,
        final(s).history == old(s).history,
        final(s).res.backend == old(s).res.backend,
        final(s).res.trace() == old(s).res.trace(),
        final(s).res.backend == old(s).res.backend,
        final(s).res.reclaim == old(s).res.reclaim,
        (final(s).res@, final(s).chunks@) == (if old(s).contexts@.dom().contains(asset) {
            invalidated(
                old(s).res@,
                old(s).chunks@,
                asset,
                file_clusters(old(s).contexts@[asset]) as nat,
            )
        } else {
            (old(s).res@, old(s).chunks@)
        }),
{
    let ctx = match fill_context_for(&s.contexts, asset) {
        Some(ctx) => ctx,
        None => {
            return;
        },
    };
    if ctx.cluster_size == 0 || ctx.cluster_size_magnitude >= 64 {
        return;
    }
    if ctx.audio_data_length_bytes == 0 || ctx.audio_data_length_bytes == UNKNOWN_LENGTH_SENTINEL {
        return;
    }
    let total_bytes: u64 = (ctx.audio_data_start_pos_bytes as u64).saturating_add(
        ctx.audio_data_length_bytes,
    );
    let size: u64 = ctx.cluster_size as u64;
    let quotient: u64 = (total_bytes - 1) / size + 1;
    proof {
        let l = total_bytes as int;
        let c = size as int;
        vstd::arithmetic::div_mod::lemma_div_plus_one(l - 1, c);
        assert((l - 1 + c) / c == (l - 1) / c + 1);
    }
    let num_clusters: u32 = if quotient > u32::MAX as u64 {
        u32::MAX
    } else {
        quotient as u32
    };
    let ghost m = s.res@;
    let ghost chunks = s.chunks@;
    let mut index: u32 = 0;
    while index < num_clusters
        invariant
            s.wf(),
            s.contexts == old(s).contexts,
            s.host == old(s).host,
            s.history == old(s).history,
            s.res.backend == old(s).res.backend,
            s.res.trace() == old(s).res.trace(),
            s.res.reclaim == old(s).res.reclaim,
            index <= num_clusters,
            (s.res@, s.chunks@) == invalidated(m, chunks, asset, index as nat),
        decreases num_clusters - index,
    {
        let ghost a = s.res@;
        let ghost c = s.chunks@;
        match s.res.peek(asset, index) {
            Some(chunk) => {
                if s.chunks.contains(chunk.as_ptr()) {
                    s.chunks.set_unloadable(chunk.as_ptr());
                }
                let slot: u32 = s.res.slot_of(chunk);
                s.res.loader_remove(slot);
            },
            None => {},
        }
        assert((s.res@, s.chunks@) == invalidate_step(a, c, asset, index));
        index = index + 1;
    }
}

/// The frames of a window are bytes of its cluster or of the slack behind it, for frames of
/// up to eight bytes. Only a frame that reaches into a next cluster that is resident goes
/// past the cluster's audio.
pub proof fn window_stays_in_its_chunk(
    geo: Geometry,
    frame: u64,
    direction: i8,
    next_resident: bool,
)
    requires
        stride(geo) <= 8,
    ensures
        match window_plan(geo, frame, direction) {
            WindowPlan::Serve { cluster, byte_offset, frame_count, needs_next } => match window_of(
                geo,
                byte_offset,
                frame_count,
                needs_next,
                next_resident,
                direction,
            ) {
                Some((offset, count)) => {
                    let first = if direction >= 0 {
                        offset as int
                    } else {
                        offset - (count - 1) * stride(geo)
                    };
                    let last = first + count * stride(geo);
                    &&& count >= 1
                    &&& 0 <= first
                    &&& last <= geo.cluster_size_bytes + 7
                    &&& !(needs_next && next_resident) ==> last <= geo.resident(cluster as int)
                },
                None => true,
            },
            _ => true,
        },
{
    lemma_plan(geo, frame, direction);
    if well_formed(geo) {
        let st = stride(geo);
        let offset = frame_offset(frame, geo);
        let left = geo.resident(frame_cluster(frame, geo)) - offset;
        vstd::arithmetic::div_mod::lemma_mod_bound(
            frame_pos(frame, geo),
            geo.cluster_size_bytes as int,
        );
        lemma_whole(offset, st);
        if left > 0 {
            lemma_whole(left, st);
            let w = left / st;
            assert((w + 1) * st == w * st + st) by (nonlinear_arith);
            let b = offset / st;
            assert((b - 1) * st == b * st - st) by (nonlinear_arith);
            assert((b + 1) * st == b * st + st) by (nonlinear_arith);
        }
    }
}

/// Each frame of a window is one of the whole frames that the audio has: a tail that is not a
/// whole frame is never served, in either direction. The frame is addressed in 64 bits, and
/// its cluster counted in 32.
pub proof fn windows_serve_whole_frames(geo: Geometry, frame: u64, direction: i8)
    requires
        geo.length_known(),
        stride(geo) > 0,
        geo.audio_data_start_bytes + frame * stride(geo) <= u64::MAX,
        (geo.audio_data_start_bytes + frame * stride(geo)) / geo.cluster_size_bytes as int
            <= u32::MAX,
    ensures
        match window_plan(geo, frame, direction) {
            WindowPlan::Serve { cluster, byte_offset, frame_count, needs_next } => {
                let total = geo.audio_data_length_bytes as int / stride(geo);
                &&& frame < total
                &&& direction >= 0 ==> frame + frame_count <= total
            },
            _ => true,
        },
{
    let st = stride(geo);
    let cs = geo.cluster_size_bytes as int;
    let length = geo.audio_data_length_bytes as int;
    lemma_plan(geo, frame, direction);
    lemma_whole(length, st);
    match window_plan(geo, frame, direction) {
        WindowPlan::Serve { cluster, byte_offset, frame_count, needs_next } => {
            let resident = geo.resident(cluster as int);
            let left = resident - byte_offset;
            let pos = frame_pos(frame, geo);
            let span = if direction >= 0 {
                frame_count as int
            } else {
                1
            };
            assert(0 <= frame * st) by (nonlinear_arith)
                requires
                    0 <= frame,
                    0 < st,
            ;
            vstd::arithmetic::div_mod::lemma_fundamental_div_mod(pos, cs);
            assert(cs * (pos / cs) == (pos / cs) * cs) by (nonlinear_arith);
            lemma_whole(left, st);
            assert((left / st + 1) * st == (left / st) * st + st) by (nonlinear_arith);
            assert(byte_offset + span * st <= geo.end() - cluster * cs);
            assert((frame + span) * st == frame * st + span * st) by (nonlinear_arith);
            assert(frame + span <= length / st) by (nonlinear_arith)
                requires
                    (frame + span) * st <= length,
                    length == (length / st) * st + length % st,
                    0 <= length % st < st,
                    0 < st,
            ;
        },
        _ => {},
    }
}

} // verus!
