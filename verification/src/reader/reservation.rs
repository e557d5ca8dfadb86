//! Reservations: a few clusters ahead of a marker kept resident for as long as the
//! reservation is open.
use crate::fill::context::{fill_context_for, FillContext};
use crate::fill::fill_logic::SampleConvert;
use crate::fill::native::{
    fill_now_outcome, reserved_for, Host, HostEvent, StreamView, Streaming,
};
use crate::reader::sample_reader::clamp64;
use crate::resource::facade::{lease_addr, Backend, Chunk, Lease};
use crate::resource::model::Model;
use crate::resource::types::NO_SLOT;
use vstd::prelude::*;

verus! {

/// A reservation, under the name that other languages have for it.
pub type DelugeSampleReservation = Reservation;

/// How many clusters a reservation covers, from the marker's on.
pub const DEPTH: usize = 2;

/// The priority that reserved clusters are queued at: the lowest.
pub const PREFETCH_PRIORITY: u32 = 0xFFFF_FFFF;

/// How the clusters of a reservation are loaded.
#[derive(Clone, Copy, PartialEq, Eq, Debug, Structural)]
pub enum LoadMode {
    /// Queued for the loader.
    Enqueue,
    /// Read now; a cluster that cannot be is not reserved.
    Now,
    /// Read now; a cluster that cannot be is queued for the loader.
    NowOrEnqueue,
}

/// The clusters that a reservation walks over.
#[derive(Clone, Copy, PartialEq, Eq, Debug)]
pub struct WalkGeometry {
    /// The marker's cluster.
    pub head: u32,
    /// The first cluster with audio.
    pub first_with_data: u32,
    /// The first cluster after the audio, as far as that is known.
    pub first_no_data: i64,
    pub cluster_size: u32,
}

/// `x` divided by two to the `k`, rounded down.
pub open spec fn shifted(x: int, k: u32) -> int {
    x / vstd::arithmetic::power2::pow2(k as nat) as int
}

/// The clusters to walk over for a marker: those of the asset's context. Nothing without
/// one, or if it has no frames or its clusters have no size that fits.
pub open spec fn walk_geometry(
    contexts: Map<u32, FillContext>,
    asset: u32,
    marker_frame: u64,
) -> Option<WalkGeometry> {
    let ctx = contexts[asset];
    let st = ctx.byte_depth * ctx.num_channels;
    if !contexts.dom().contains(asset) || st == 0 || ctx.cluster_size_magnitude >= 64 {
        None
    } else {
        let start = clamp64(ctx.audio_data_start_pos_bytes + clamp64(marker_frame * st));
        let head = shifted(start, ctx.cluster_size_magnitude);
        Some(
            WalkGeometry {
                head: (if head > u32::MAX {
                    u32::MAX as int
                } else {
                    head
                }) as u32,
                first_with_data: shifted(
                    ctx.audio_data_start_pos_bytes as int,
                    ctx.cluster_size_magnitude,
                ) as u32,
                first_no_data: if ctx.first_cluster_index_with_no_audio_data < 0 {
                    i64::MAX
                } else {
                    ctx.first_cluster_index_with_no_audio_data as i64
                },
                cluster_size: ctx.cluster_size,
            },
        )
    }
}

/// A right shift is a division.
proof fn lemma_shift(x: u64, k: u32)
    requires
        k < 64,
    ensures
        (x >> k as u64) as int == shifted(x as int, k),
{
    vstd::bits::lemma_u64_shr_is_div(x, k as u64);
}

/// The clusters to walk over for a marker.
pub fn resolve_geometry<B: Backend, H: Host>(
    s: &Streaming<B, H>,
    asset: u32,
    marker_frame: u64,
) -> (r: Option<WalkGeometry>)
    requires
        s.wf(),
    ensures
        r == walk_geometry(s.contexts@, asset, marker_frame),
{
    let ctx = match fill_context_for(&s.contexts, asset) {
        Some(ctx) => ctx,
        None => {
            return None;
        },
    };
    assert(0 <= ctx.byte_depth * ctx.num_channels <= 65025) by (nonlinear_arith)
        requires
            0 <= ctx.byte_depth <= 255,
            0 <= ctx.num_channels <= 255,
    ;
    let frame_stride: u64 = ctx.byte_depth as u64 * ctx.num_channels as u64;
    if frame_stride == 0 || ctx.cluster_size_magnitude >= 64 {
        return None;
    }
    let offset: u64 = match marker_frame.checked_mul(frame_stride) {
        Some(v) => v,
        None => u64::MAX,
    };
    let start_byte: u64 = (ctx.audio_data_start_pos_bytes as u64).saturating_add(offset);
    proof {
        lemma_shift(start_byte, ctx.cluster_size_magnitude);
        lemma_shift(ctx.audio_data_start_pos_bytes as u64, ctx.cluster_size_magnitude);
        vstd::arithmetic::power2::lemma_pow2_pos(ctx.cluster_size_magnitude as nat);
        let d = vstd::arithmetic::power2::pow2(ctx.cluster_size_magnitude as nat) as int;
        vstd::arithmetic::div_mod::lemma_div_is_ordered_by_denominator(
            ctx.audio_data_start_pos_bytes as int,
            1,
            d,
        );
        vstd::arithmetic::div_mod::lemma_div_pos_is_pos(
            ctx.audio_data_start_pos_bytes as int,
            d,
        );
    }
    let shift: u64 = ctx.cluster_size_magnitude as u64;
    let quotient: u64 = start_byte >> shift;
    let head: u32 = if quotient > u32::MAX as u64 {
        u32::MAX
    } else {
        quotient as u32
    };
    let first: u64 = (ctx.audio_data_start_pos_bytes as u64) >> shift;
    let first_with_data: u32 = first as u32;
    let first_no_data: i64 = if ctx.first_cluster_index_with_no_audio_data < 0 {
        i64::MAX
    } else {
        ctx.first_cluster_index_with_no_audio_data as i64
    };
    Some(WalkGeometry { head, first_with_data, first_no_data, cluster_size: ctx.cluster_size })
}

/// The clusters that a walk covers: from the head in `direction`, at most `n`, and none from
/// the first on that is not audio. Positions are in 32 bits.
pub open spec fn walk(g: WalkGeometry, direction: i8, n: nat) -> Seq<u32>
    decreases n,
{
    if n == 0 {
        Seq::empty()
    } else {
        let before = walk(g, direction, (n - 1) as nat);
        let at = g.head + (n - 1) * direction;
        if before.len() == n - 1 && g.first_with_data <= at < g.first_no_data {
            before.push((at % 0x1_0000_0000) as u32)
        } else {
            before
        }
    }
}

/// The tables after the chunk at `p` was queued for the loader, unless it is ready.
pub open spec fn enqueued_unfilled(m: Model, p: usize) -> Model {
    let a = m.searched_ptr(p);
    match m.slot_at(p) {
        Some(i) => if m.chunks[i].ready {
            a
        } else {
            a.searched_ptr(p).enqueue(i as u32, PREFETCH_PRIORITY)
        },
        None => a.searched_ptr(p).enqueue(NO_SLOT, PREFETCH_PRIORITY),
    }
}

/// After that the loader was woken, unless the chunk is ready.
pub open spec fn woken(m: Model, p: usize, data: StreamView) -> StreamView {
    if m.slot_at(p) is Some && m.chunks[m.slot_at(p)->0].ready {
        data
    } else {
        StreamView { asked: data.asked.push(HostEvent::Woken), ..data }
    }
}

/// What loading cluster `index` of `asset` for a reservation does, `r` being the address of
/// the leased chunk, or 0. A cluster that is ready is leased. Another is reserved, and then
/// queued or filled as the mode says.
#[verifier::opaque]
pub open spec fn load_outcome<C: SampleConvert>(
    m: Model,
    contexts: Map<u32, FillContext>,
    data: StreamView,
    asset: u32,
    index: u32,
    cluster_size: u32,
    mode: LoadMode,
    r: usize,
    n: Model,
    new_data: StreamView,
) -> bool {
    let a = m.try_acquire(asset, index);
    if m.try_acquire_result(asset, index) != 0 {
        r == m.try_acquire_result(asset, index) && n == a && new_data == data
    } else {
        exists|p: usize, b: Model, mid: StreamView|
            {
                &&& #[trigger] reserved_for(a, data, asset, index, cluster_size, p, b, mid)
                &&& if p == 0 {
                    r == 0 && n == b && new_data == mid
                } else {
                    loaded_as::<C>(b, contexts, mid, p, mode, r, n, new_data)
                }
            }
    }
}

/// The reserved chunk at `p` queued, or filled and then ready; if the fill fails it is
/// queued or given back.
pub open spec fn loaded_as<C: SampleConvert>(
    m: Model,
    contexts: Map<u32, FillContext>,
    data: StreamView,
    p: usize,
    mode: LoadMode,
    r: usize,
    n: Model,
    new_data: StreamView,
) -> bool {
    if mode == LoadMode::Enqueue {
        r == p && n == enqueued_unfilled(m, p) && new_data == woken(m, p, data)
    } else {
        exists|filled: bool, b: Model, mid: StreamView|
            {
                &&& #[trigger] fill_now_outcome::<C>(
                    m,
                    contexts,
                    data,
                    p,
                    false,
                    filled,
                    b,
                    mid,
                )
                &&& if filled {
                    r == p && n == b.mark_ready(p) && new_data == mid
                } else if mode == LoadMode::NowOrEnqueue {
                    r == p && n == enqueued_unfilled(b, p) && new_data == woken(b, p, mid)
                } else {
                    r == 0 && n == b.release(p) && new_data == mid
                }
            }
    }
}

impl<B: Backend, H: Host> Streaming<B, H> {
    /// Queues `chunk` for the loader at the lowest priority and wakes it, unless the chunk
    /// is ready.
    fn enqueue_unfilled(&mut self, chunk: Chunk)
        requires
            old(self).wf(),
        ensures
            final(self).wf(),
            final(self).contexts == old(self).contexts,
            final(self).follows(*old(self)),
            final(self).data() == woken(old(self).res@, chunk@, old(self).data()),
            final(self).res.reclaim == old(self).res.reclaim,
            final(self).res@ == enqueued_unfilled(old(self).res@, chunk@),
    {
        if self.res.is_ready(chunk) {
            proof {
                self.lemma_silent(*old(self));
            }
            return;
        }
        let slot: u32 = self.res.slot_of(chunk);
        self.res.loader_enqueue(slot, PREFETCH_PRIORITY);
        self.ask_wake();
    }

    /// Leases cluster `index` of `asset` for a reservation, loading it as the mode says.
    fn load_cluster(
        &mut self,
        asset: u32,
        index: u32,
        cluster_size: u32,
        mode: LoadMode,
    ) -> (r: Option<Lease>)
        requires
            old(self).wf(),
        ensures
            final(self).wf(),
            final(self).contexts == old(self).contexts,
            final(self).follows(*old(self)),
            final(self).res.reclaim == old(self).res.reclaim,
            r is Some <==> lease_addr(r) != 0,
            load_outcome::<H>(
                old(self).res@,
                old(self).contexts@,
                old(self).data(),
                asset,
                index,
                cluster_size,
                mode,
                lease_addr(r),
                final(self).res@,
                final(self).data(),
            ),
    {
        reveal(load_outcome);
        match self.res.acquire_leased(asset, index) {
            Some(lease) => {
                proof {
                    self.lemma_silent(*old(self));
                }
                return Some(lease);
            },
            None => {},
        }
        let ghost a = self.res@;
        let lease = match self.request(asset, index, cluster_size) {
            Some(lease) => lease,
            None => {
                assert(reserved_for(
                    a,
                    old(self).data(),
                    asset,
                    index,
                    cluster_size,
                    0,
                    self.res@,
                    self.data(),
                ));
                return None;
            },
        };
        let ghost b = self.res@;
        let ghost mid = self.data();
        let ghost first = *self;
        let ghost p = lease@;
        assert(reserved_for(a, old(self).data(), asset, index, cluster_size, p, b, mid));
        if mode == LoadMode::Enqueue {
            self.enqueue_unfilled(lease.chunk());
            proof {
                first.lemma_follows(*old(self), *self);
            }
            assert(loaded_as::<H>(b, self.contexts@, mid, p, mode, p, self.res@, self.data()));
            return Some(lease);
        }
        let filled = self.fill_now(lease.chunk());
        let ghost c = self.res@;
        let ghost after = self.data();
        let ghost second = *self;
        proof {
            first.lemma_follows(*old(self), second);
        }
        assert(fill_now_outcome::<H>(b, self.contexts@, mid, p, false, filled, c, self.data()));
        if filled {
            self.res.mark_ready(lease.chunk());
            assert(loaded_as::<H>(b, self.contexts@, mid, p, mode, p, self.res@, self.data()));
            Some(lease)
        } else if mode == LoadMode::NowOrEnqueue {
            self.enqueue_unfilled(lease.chunk());
            proof {
                second.lemma_follows(*old(self), *self);
            }
            assert(loaded_as::<H>(b, self.contexts@, mid, p, mode, p, self.res@, self.data()));
            Some(lease)
        } else {
            self.res.release_lease(lease);
            assert(loaded_as::<H>(b, self.contexts@, mid, p, mode, 0, self.res@, self.data()));
            None
        }
    }
}

/// The addresses of leased chunks; 0 where there is no lease.
pub open spec fn lease_addrs(leases: Seq<Option<Lease>>) -> Seq<usize> {
    Seq::new(leases.len(), |i: int| lease_addr(leases[i]))
}

/// The leases at those addresses given back, in order.
pub open spec fn released_all(m: Model, addrs: Seq<usize>) -> Model
    decreases addrs.len(),
{
    if addrs.len() == 0 {
        m
    } else {
        let before = released_all(m, addrs.drop_last());
        if addrs.last() != 0 {
            before.release(addrs.last())
        } else {
            before
        }
    }
}

/// How many of the addresses are leases.
pub open spec fn count_leased(addrs: Seq<usize>) -> nat
    decreases addrs.len(),
{
    if addrs.len() == 0 {
        0
    } else {
        count_leased(addrs.drop_last()) + (if addrs.last() != 0 {
            1nat
        } else {
            0
        })
    }
}

/// There are no more leases than addresses.
proof fn lemma_count_leased(addrs: Seq<usize>)
    ensures
        count_leased(addrs) <= addrs.len(),
    decreases addrs.len(),
{
    if addrs.len() > 0 {
        lemma_count_leased(addrs.drop_last());
    }
}

/// The clusters `covered` loaded one after the other, leaving leases at `addrs`.
pub open spec fn loads<C: SampleConvert>(
    m: Model,
    contexts: Map<u32, FillContext>,
    data: StreamView,
    asset: u32,
    cluster_size: u32,
    mode: LoadMode,
    covered: Seq<u32>,
    addrs: Seq<usize>,
    n: Model,
    new_data: StreamView,
) -> bool
    decreases covered.len(),
{
    if covered.len() == 0 {
        addrs.len() == 0 && n == m && new_data == data
    } else {
        &&& addrs.len() == covered.len()
        &&& exists|a: Model, mid: StreamView|
            {
                &&& loads::<C>(
                    m,
                    contexts,
                    data,
                    asset,
                    cluster_size,
                    mode,
                    covered.drop_last(),
                    addrs.drop_last(),
                    a,
                    mid,
                )
                &&& #[trigger] load_outcome::<C>(
                    a,
                    contexts,
                    mid,
                    asset,
                    covered.last(),
                    cluster_size,
                    mode,
                    addrs.last(),
                    n,
                    new_data,
                )
            }
    }
}

/// A reservation over one sample.
pub struct Reservation {
    asset: u32,
    head_index: Option<u32>,
    covered: Vec<u32>,
    leases: Vec<Option<Lease>>,
}

/// What a reservation is.
pub struct ReservationView {
    pub asset: u32,
    /// The cluster that it is anchored at; nothing if it covers nothing for want of a
    /// geometry.
    pub head_index: Option<u32>,
    /// The clusters that it covers, in the order of the walk.
    pub covered: Seq<u32>,
    /// For each the address of its leased chunk, or 0 if it could not be loaded.
    pub addrs: Seq<usize>,
}

/// A reservation that covers nothing.
pub open spec fn inert(asset: u32) -> ReservationView {
    ReservationView {
        asset,
        head_index: None,
        covered: Seq::empty(),
        addrs: Seq::empty(),
    }
}

/// What anchoring at a marker makes: with a geometry the walk is covered and loaded.
pub open spec fn anchored<C: SampleConvert>(
    m: Model,
    contexts: Map<u32, FillContext>,
    data: StreamView,
    asset: u32,
    marker_frame: u64,
    direction: i8,
    mode: LoadMode,
    v: ReservationView,
    n: Model,
    new_data: StreamView,
) -> bool {
    match walk_geometry(contexts, asset, marker_frame) {
        None => v == inert(asset) && n == m && new_data == data,
        Some(g) => {
            &&& v.asset == asset
            &&& v.head_index == Some(g.head)
            &&& v.covered == walk(g, direction, DEPTH as nat)
            &&& loads::<C>(
                m,
                contexts,
                data,
                asset,
                g.cluster_size,
                mode,
                v.covered,
                v.addrs,
                n,
                new_data,
            )
        },
    }
}

/// Covers and loads a walk: gives the clusters and their leases.
fn walk_and_lease<B: Backend, H: Host>(
    s: &mut Streaming<B, H>,
    asset: u32,
    g: &WalkGeometry,
    direction: i8,
    mode: LoadMode,
) -> (r: (Vec<u32>, Vec<Option<Lease>>))
    requires
        old(s).wf(),
    ensures
        final(s).wf(),
        final(s).contexts == old(s).contexts,
        final(s).follows(*old(s)),
        final(s).res.reclaim == old(s).res.reclaim,
        r.0@ == walk(*g, direction, DEPTH as nat),
        r.1@.len() == r.0@.len(),
        forall|i: int|
            0 <= i < r.1@.len() ==> ((#[trigger] r.1@[i]) is Some <==> lease_addr(r.1@[i]) != 0),
        loads::<H>(
            old(s).res@,
            old(s).contexts@,
            old(s).data(),
            asset,
            g.cluster_size,
            mode,
            r.0@,
            lease_addrs(r.1@),
            final(s).res@,
            final(s).data(),
        ),
{
    let ghost m = s.res@;
    let ghost data = s.data();
    proof {
        s.lemma_silent(*old(s));
    }
    let mut covered: Vec<u32> = Vec::new();
    let mut leases: Vec<Option<Lease>> = Vec::new();
    let mut idx: i64 = g.head as i64;
    let mut slot: usize = 0;
    let mut more = true;
    assert(lease_addrs(leases@) =~= Seq::<usize>::empty());
    while slot < DEPTH && more
        invariant
            s.wf(),
            s.contexts == old(s).contexts,
            s.follows(*old(s)),
            s.res.reclaim == old(s).res.reclaim,
            slot <= DEPTH,
            idx == g.head + slot * direction,
            g.head - 128 * slot <= idx <= g.head + 127 * slot,
            covered@ == walk(*g, direction, slot as nat),
            more ==> covered@.len() == slot,
            !more ==> covered@ == walk(*g, direction, DEPTH as nat),
            leases@.len() == covered@.len(),
            forall|i: int|
                0 <= i < leases@.len() ==> ((#[trigger] leases@[i]) is Some <==> lease_addr(
                    leases@[i],
                ) != 0),
            loads::<H>(
                m,
                s.contexts@,
                data,
                asset,
                g.cluster_size,
                mode,
                covered@,
                lease_addrs(leases@),
                s.res@,
                s.data(),
            ),
        decreases DEPTH - slot, (if more { 1int } else { 0int }),
    {
        if idx < g.first_with_data as i64 || idx >= g.first_no_data {
            more = false;
            proof {
                lemma_walk_stops(*g, direction, slot as nat, DEPTH as nat);
            }
        } else {
            proof {
                lemma_low32(idx);
            }
            let cluster: u32 = idx as u32;
            let ghost a = s.res@;
            let ghost mid = s.data();
            let ghost before = *s;
            let ghost c0 = covered@;
            let ghost l0 = leases@;
            let lease = s.load_cluster(asset, cluster, g.cluster_size, mode);
            let ghost addr = lease_addr(lease);
            covered.push(cluster);
            leases.push(lease);
            proof {
                before.lemma_follows(*old(s), *s);
                assert(covered@.drop_last() =~= c0);
                assert(lease_addrs(leases@).drop_last() =~= lease_addrs(l0));
                assert(lease_addrs(leases@).last() == addr);
                assert(load_outcome::<H>(
                    a,
                    s.contexts@,
                    mid,
                    asset,
                    covered@.last(),
                    g.cluster_size,
                    mode,
                    lease_addrs(leases@).last(),
                    s.res@,
                    s.data(),
                ));
                assert((slot + 1) * direction == slot * direction + direction)
                    by (nonlinear_arith);
            }
            idx = idx + direction as i64;
            slot = slot + 1;
            assert(covered@ == walk(*g, direction, slot as nat));
        }
    }
    (covered, leases)
}

/// The low 32 bits of a number.
proof fn lemma_low32(x: i64)
    requires
        0 <= x,
    ensures
        (x as u32) as int == x as int % 0x1_0000_0000,
{
    let u = x as u64;
    assert(u as u32 as u64 == u % 0x1_0000_0000u64) by (bit_vector);
    assert(x as u32 == u as u32);
}

/// A walk that has stopped covers no more.
proof fn lemma_walk_stops(g: WalkGeometry, direction: i8, k: nat, n: nat)
    requires
        k <= n,
        !(g.first_with_data <= g.head + k * direction < g.first_no_data),
    ensures
        k < n ==> walk(g, direction, n) == walk(g, direction, k),
        walk(g, direction, k).len() <= k,
    decreases n,
{
    lemma_walk_len(g, direction, k);
    if k < n {
        if k + 1 < n {
            lemma_walk_stops(g, direction, k, (n - 1) as nat);
        }
    }
}

/// A walk covers no more clusters than it has steps.
pub proof fn lemma_walk_len(g: WalkGeometry, direction: i8, n: nat)
    ensures
        walk(g, direction, n).len() <= n,
    decreases n,
{
    if n > 0 {
        lemma_walk_len(g, direction, (n - 1) as nat);
    }
}

/// Gives leases back, in order.
fn release_all<B: Backend, H: Host>(s: &mut Streaming<B, H>, leases: Vec<Option<Lease>>)
    requires
        old(s).wf(),
        forall|i: int|
            0 <= i < leases@.len() ==> ((#[trigger] leases@[i]) is Some <==> lease_addr(leases@[i])
                != 0),
    ensures
        final(s).wf(),
        *final(s) == (Streaming { res: final(s).res, ..*old(s) }),
        final(s).res.trace() == old(s).res.trace(),
        final(s).res.backend == old(s).res.backend,
        final(s).res.reclaim == old(s).res.reclaim,
        final(s).res@ == released_all(old(s).res@, lease_addrs(leases@)),
{
    let ghost m = s.res@;
    let ghost addrs = lease_addrs(leases@);
    let mut leases = leases;
    let n: usize = leases.len();
    let mut i: usize = 0;
    assert(addrs.take(0) =~= Seq::<usize>::empty());
    while i < n
        invariant
            s.wf(),
            *s == (Streaming { res: s.res, ..*old(s) }),
            s.res.trace() == old(s).res.trace(),
            s.res.backend == old(s).res.backend,
            s.res.reclaim == old(s).res.reclaim,
            i <= n,
            n == addrs.len(),
            leases@.len() == n,
            forall|j: int| i <= j < n ==> lease_addr(#[trigger] leases@[j]) == addrs[j],
            forall|j: int|
                i <= j < n ==> ((#[trigger] leases@[j]) is Some <==> lease_addr(leases@[j]) != 0),
            s.res@ == released_all(m, addrs.take(i as int)),
        decreases n - i,
    {
        let mut lease: Option<Lease> = None;
        leases.set_and_swap(i, &mut lease);
        proof {
            assert(addrs.take(i + 1).drop_last() =~= addrs.take(i as int));
            assert(addrs.take(i + 1).last() == addrs[i as int]);
        }
        match lease {
            Some(l) => s.res.release_lease(l),
            None => {},
        }
        i = i + 1;
    }
    assert(addrs.take(n as int) =~= addrs);
}

impl Reservation {
    pub closed spec fn view(&self) -> ReservationView {
        ReservationView {
            asset: self.asset,
            head_index: self.head_index,
            covered: self.covered@,
            addrs: lease_addrs(self.leases@),
        }
    }

    /// No more clusters than the depth, and each has its lease, or none.
    pub closed spec fn wf(&self) -> bool {
        &&& self.covered@.len() <= DEPTH
        &&& self.leases@.len() == self.covered@.len()
        &&& forall|i: int|
            0 <= i < self.leases@.len() ==> ((#[trigger] self.leases@[i]) is Some <==> lease_addr(
                self.leases@[i],
            ) != 0)
    }

    /// What `wf` says of what is seen from outside.
    pub proof fn lemma_wf(&self)
        requires
            self.wf(),
        ensures
            self@.covered.len() <= DEPTH,
            self@.addrs.len() == self@.covered.len(),
            count_leased(self@.addrs) <= DEPTH,
    {
        lemma_count_leased(self@.addrs);
    }

    /// A reservation that covers nothing.
    pub fn inert(asset: u32) -> (r: Reservation)
        ensures
            r.wf(),
            r@ == inert(asset),
    {
        let r = Reservation {
            asset,
            head_index: None,
            covered: Vec::new(),
            leases: Vec::new(),
        };
        assert(r@.addrs =~= Seq::<usize>::empty());
        r
    }

    fn anchor<B: Backend, H: Host>(
        s: &mut Streaming<B, H>,
        asset: u32,
        marker_frame: u64,
        direction: i8,
        mode: LoadMode,
    ) -> (r: Reservation)
        requires
            old(s).wf(),
        ensures
            final(s).wf(),
            final(s).contexts == old(s).contexts,
            final(s).follows(*old(s)),
            final(s).res.reclaim == old(s).res.reclaim,
            r.wf(),
            anchored::<H>(
                old(s).res@,
                old(s).contexts@,
                old(s).data(),
                asset,
                marker_frame,
                direction,
                mode,
                r@,
                final(s).res@,
                final(s).data(),
            ),
    {
        proof {
            s.lemma_silent(*old(s));
        }
        match resolve_geometry(s, asset, marker_frame) {
            None => Self::inert(asset),
            Some(g) => {
                let (covered, leases) = walk_and_lease(s, asset, &g, direction, mode);
                proof {
                    lemma_walk_len(g, direction, DEPTH as nat);
                }
                Reservation { asset, head_index: Some(g.head), covered, leases }
            },
        }
    }

    /// Opens a reservation over the sample of `asset`: covers the marker's cluster and those
    /// that follow it in `direction`, as far as they are audio, and loads and leases each.
    /// A cluster that could not be loaded stays covered.
    pub fn open<B: Backend, H: Host>(
        s: &mut Streaming<B, H>,
        asset: u32,
        marker_frame: u64,
        direction: i8,
        load_mode: LoadMode,
    ) -> (r: Reservation)
        requires
            old(s).wf(),
        ensures
            final(s).wf(),
            final(s).contexts == old(s).contexts,
            final(s).follows(*old(s)),
            final(s).res.reclaim == old(s).res.reclaim,
            r.wf(),
            anchored::<H>(
                old(s).res@,
                old(s).contexts@,
                old(s).data(),
                asset,
                marker_frame,
                direction,
                load_mode,
                r@,
                final(s).res@,
                final(s).data(),
            ),
    {
        Self::anchor(s, asset, marker_frame, direction, load_mode)
    }

    /// Moves a reservation to a marker, of the same sample or another. If the marker is in
    /// the cluster that the reservation is anchored at, nothing happens. Otherwise every
    /// lease is given back, and then it is as if it were opened there.
    pub fn reanchor<B: Backend, H: Host>(
        &mut self,
        s: &mut Streaming<B, H>,
        asset: u32,
        marker_frame: u64,
        direction: i8,
        load_mode: LoadMode,
    )
        requires
            old(s).wf(),
            old(self).wf(),
        ensures
            final(s).wf(),
            final(s).contexts == old(s).contexts,
            final(s).follows(*old(s)),
            final(s).res.reclaim == old(s).res.reclaim,
            final(self).wf(),
            if same_anchor(old(self)@, old(s).contexts@, asset, marker_frame) {
                *final(self) == *old(self) && *final(s) == *old(s)
            } else {
                anchored::<H>(
                    released_all(old(s).res@, old(self)@.addrs),
                    old(s).contexts@,
                    old(s).data(),
                    asset,
                    marker_frame,
                    direction,
                    load_mode,
                    final(self)@,
                    final(s).res@,
                    final(s).data(),
                )
            },
    {
        proof {
            s.lemma_silent(*old(s));
        }
        let new_head: Option<u32> = match resolve_geometry(s, asset, marker_frame) {
            Some(g) => Some(g.head),
            None => None,
        };
        if asset == self.asset {
            match (new_head, self.head_index) {
                (Some(a), Some(b)) => if a == b {
                    return;
                },
                _ => {},
            }
        }
        let mut leases: Vec<Option<Lease>> = Vec::new();
        std::mem::swap(&mut leases, &mut self.leases);
        release_all(s, leases);
        *self = Self::anchor(s, asset, marker_frame, direction, load_mode);
    }

    /// Closes a reservation: gives every lease back.
    pub fn close<B: Backend, H: Host>(self, s: &mut Streaming<B, H>)
        requires
            old(s).wf(),
            self.wf(),
        ensures
            final(s).wf(),
            *final(s) == (Streaming { res: final(s).res, ..*old(s) }),
            final(s).res.trace() == old(s).res.trace(),
            final(s).res.backend == old(s).res.backend,
            final(s).res.reclaim == old(s).res.reclaim,
            final(s).res@ == released_all(old(s).res@, self@.addrs),
    {
        release_all(s, self.leases);
    }

    /// The asset that is covered.
    pub fn asset(&self) -> (r: u32)
        ensures
            r == self@.asset,
    {
        self.asset
    }

    /// The clusters that are covered, in the order of the walk.
    pub fn covered_indices(&self) -> (r: &Vec<u32>)
        ensures
            r@ == self@.covered,
    {
        &self.covered
    }

    /// The cluster at position `slot` of the walk, or the largest number past its end.
    pub fn covered_index(&self, slot: u32) -> (r: u32)
        ensures
            r == (if slot < self@.covered.len() { self@.covered[slot as int] } else { u32::MAX }),
    {
        if (slot as usize) < self.covered.len() {
            self.covered[slot as usize]
        } else {
            u32::MAX
        }
    }

    /// How many of the covered clusters are leased.
    pub fn num_leased(&self) -> (r: usize)
        requires
            self.wf(),
        ensures
            r == count_leased(self@.addrs),
    {
        let ghost addrs = self@.addrs;
        let mut n: usize = 0;
        let mut i: usize = 0;
        assert(addrs.take(0) =~= Seq::<usize>::empty());
        while i < self.leases.len()
            invariant
                self.wf(),
                addrs == self@.addrs,
                i <= self.leases@.len(),
                n <= i,
                n == count_leased(addrs.take(i as int)),
            decreases self.leases@.len() - i,
        {
            proof {
                assert(addrs.take(i + 1).drop_last() =~= addrs.take(i as int));
                assert(addrs.take(i + 1).last() == addrs[i as int]);
            }
            if self.leases[i].is_some() {
                n = n + 1;
            }
            i = i + 1;
        }
        assert(addrs.take(self.leases@.len() as int) =~= addrs);
        n
    }
}

/// The marker is in the cluster that the reservation `v` is anchored at.
pub open spec fn same_anchor(
    v: ReservationView,
    contexts: Map<u32, FillContext>,
    asset: u32,
    marker_frame: u64,
) -> bool {
    match walk_geometry(contexts, asset, marker_frame) {
        Some(g) => asset == v.asset && v.head_index == Some(g.head),
        None => false,
    }
}

/// The clusters that a reservation covers are audio, the marker's first and each next to
/// the one before, and no more than the depth.
pub proof fn walk_covers_audio_from_the_marker_on(g: WalkGeometry, direction: i8, n: nat, i: int)
    requires
        0 <= i < walk(g, direction, n).len(),
    ensures
        i < n,
        g.first_with_data <= g.head + i * direction < g.first_no_data,
        walk(g, direction, n)[i] == (g.head + i * direction) % 0x1_0000_0000,
    decreases n,
{
    lemma_walk_len(g, direction, n);
    if n > 0 {
        let before = walk(g, direction, (n - 1) as nat);
        lemma_walk_len(g, direction, (n - 1) as nat);
        if i < before.len() {
            walk_covers_audio_from_the_marker_on(g, direction, (n - 1) as nat, i);
        }
    }
}

} // verus!
