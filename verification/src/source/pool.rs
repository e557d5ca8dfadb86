//! The pool of cursors: a fixed number of them, handed out by handle. A handle is one more
//! than the number of its slot, so 0 is none.
use crate::fill::native::{Host, Streaming};
use crate::resource::facade::{token_gen, token_slot, Backend};
use crate::resource::model::Model;
use crate::source::cursor::{
    acquire_steps, acquired, closes, observes, RegionOut, RegionState, SampleSource,
};
use crate::source::geometry::{Geometry, UNKNOWN_LENGTH_SENTINEL};
use crate::source::manager_residency::ManagerResidency;
use crate::source::residency::Residency;
use vstd::prelude::*;

verus! {

/// An open cursor: its place in the pool, from 1 on; 0 is none.
pub type DelugeSampleSource = u32;

/// How many cursors there are.
pub const POOL_SIZE: usize = 256;

/// What became of a region.
#[derive(Clone, Copy, PartialEq, Eq, Debug, Structural)]
pub enum DelugeRegionState {
    Ready,
    Loading,
    Unavailable,
}

impl vstd::std_specs::convert::FromSpecImpl<RegionState> for DelugeRegionState {
    open spec fn obeys_from_spec() -> bool {
        true
    }

    open spec fn from_spec(s: RegionState) -> DelugeRegionState {
        match s {
            RegionState::Ready => DelugeRegionState::Ready,
            RegionState::Loading => DelugeRegionState::Loading,
            RegionState::Unavailable => DelugeRegionState::Unavailable,
        }
    }
}

impl From<RegionState> for DelugeRegionState {
    fn from(s: RegionState) -> (r: DelugeRegionState) {
        match s {
            RegionState::Ready => DelugeRegionState::Ready,
            RegionState::Loading => DelugeRegionState::Loading,
            RegionState::Unavailable => DelugeRegionState::Unavailable,
        }
    }
}

/// One region that is ready to be read.
#[derive(Clone, Copy, PartialEq, Eq, Debug)]
pub struct DelugeSampleRegion {
    pub payload_base: usize,
    pub region_index: u32,
    pub resident_bytes: u32,
    pub lease: u64,
}

/// How many clusters a sample has: none without a cluster size, no bound while the length
/// is not known.
pub open spec fn clusters_of(geo: Geometry) -> int {
    if geo.cluster_size_bytes == 0 {
        0
    } else if !geo.length_known() {
        u32::MAX as int
    } else {
        let n = (geo.audio_data_length_bytes + geo.cluster_size_bytes - 1)
            / geo.cluster_size_bytes as int;
        if n < u32::MAX {
            n
        } else {
            u32::MAX as int
        }
    }
}

/// How many clusters a sample has.
pub fn num_clusters_for(geo: &Geometry) -> (r: u32)
    ensures
        r == clusters_of(*geo),
{
    if geo.cluster_size_bytes == 0 {
        return 0;
    }
    if geo.audio_data_length_bytes == 0 || geo.audio_data_length_bytes == UNKNOWN_LENGTH_SENTINEL {
        return u32::MAX;
    }
    let size: u64 = geo.cluster_size_bytes as u64;
    let n: u64 = (geo.audio_data_length_bytes - 1) / size + 1;
    proof {
        let l = geo.audio_data_length_bytes as int;
        let c = size as int;
        vstd::arithmetic::div_mod::lemma_div_plus_one(l - 1, c);
        assert((l - 1 + c) / c == (l - 1) / c + 1);
    }
    if n < u32::MAX as u64 {
        n as u32
    } else {
        u32::MAX
    }
}

/// The cursors.
#[verifier::reject_recursive_types(B)]
#[verifier::reject_recursive_types(H)]
pub struct SourcePool<B: Backend, H: Host> {
    slots: Vec<Option<SampleSource<ManagerResidency<B, H>>>>,
    /// A cursor has been opened since the start.
    active: bool,
}

impl<B: Backend, H: Host> SourcePool<B, H> {
    pub closed spec fn wf(&self) -> bool {
        self.slots@.len() == POOL_SIZE
    }

    /// The cursor of each slot in use. Whether one was ever opened is told by `spec_active`.
    pub closed spec fn view(&self) -> Seq<Option<SampleSource<ManagerResidency<B, H>>>> {
        self.slots@
    }

    /// A cursor has been opened since the start.
    pub closed spec fn spec_active(&self) -> bool {
        self.active
    }

    /// `src` is the handle of an open cursor.
    pub open spec fn is_open(&self, src: DelugeSampleSource) -> bool {
        1 <= src <= self@.len() && self@[src - 1] is Some
    }

    /// The cursor with the handle `src`.
    pub open spec fn source(
        &self,
        src: DelugeSampleSource,
    ) -> SampleSource<ManagerResidency<B, H>> {
        self@[src - 1]->0
    }

    /// What being in order means: the pool has all its slots.
    pub proof fn lemma_wf(&self)
        ensures
            self.wf() == (self@.len() == POOL_SIZE),
    {
    }

    /// A pool with no cursor open.
    pub fn new() -> (r: Self)
        ensures
            r.wf(),
            r@.len() == POOL_SIZE,
            forall|i: int| 0 <= i < POOL_SIZE ==> (#[trigger] r@[i]) is None,
            !r.spec_active(),
    {
        let mut slots: Vec<Option<SampleSource<ManagerResidency<B, H>>>> = Vec::new();
        let mut i: usize = 0;
        while i < POOL_SIZE
            invariant
                i <= POOL_SIZE,
                slots@.len() == i,
                forall|j: int| 0 <= j < i ==> (#[trigger] slots@[j]) is None,
            decreases POOL_SIZE - i,
        {
            slots.push(None);
            i = i + 1;
        }
        SourcePool { slots, active: false }
    }

    /// The first slot that is not in use.
    fn claim_slot(&self) -> (r: Option<usize>)
        ensures
            match r {
                Some(i) => {
                    &&& i < self@.len()
                    &&& self@[i as int] is None
                    &&& forall|j: int| 0 <= j < i ==> (#[trigger] self@[j]) is Some
                },
                None => forall|j: int| 0 <= j < self@.len() ==> (#[trigger] self@[j]) is Some,
            },
    {
        let mut i: usize = 0;
        while i < self.slots.len()
            invariant
                i <= self@.len(),
                forall|j: int| 0 <= j < i ==> (#[trigger] self@[j]) is Some,
            decreases self@.len() - i,
        {
            if self.slots[i].is_none() {
                return Some(i);
            }
            i = i + 1;
        }
        None
    }

    /// Opens a cursor over the sample of `asset`, in the first slot not in use, and gives
    /// its handle. `asset` is nothing if there is no stream or no cache to play it from; 0
    /// then, and if every cursor is open.
    pub fn deluge_sample_source_open(
        &mut self,
        asset: Option<u32>,
        geometry: Geometry,
    ) -> (r: DelugeSampleSource)
        requires
            old(self).wf(),
        ensures
            final(self).wf(),
            asset is None ==> r == 0 && *final(self) == *old(self),
            asset is Some ==> {
                if forall|j: int| 0 <= j < old(self)@.len() ==> (#[trigger] old(self)@[j]) is Some {
                    r == 0 && *final(self) == *old(self)
                } else {
                    &&& 1 <= r <= old(self)@.len()
                    &&& old(self)@[r - 1] is None
                    &&& forall|j: int| 0 <= j < r - 1 ==> (#[trigger] old(self)@[j]) is Some
                    &&& final(self)@ == old(self)@.update(r - 1, final(self)@[r - 1])
                    &&& final(self).is_open(r)
                    &&& final(self).spec_active()
                    &&& opened(final(self).source(r), asset->0, geometry)
                }
            },
    {
        let asset: u32 = match asset {
            Some(a) => a,
            None => {
                return 0;
            },
        };
        let residency = ManagerResidency::new(
            asset,
            geometry.cluster_size_bytes,
            num_clusters_for(&geometry),
        );
        let source = SampleSource::new(residency, geometry);
        match self.claim_slot() {
            Some(i) => {
                self.slots.set(i, Some(source));
                self.active = true;
                assert(self@ =~= old(self)@.update(i as int, self@[i as int]));
                i as u32 + 1
            },
            None => 0,
        }
    }

    /// Makes cluster `index` resident for the cursor `src`, or has it loaded. Gives the
    /// region if it is ready. A handle that is not open gets `Unavailable`.
    pub fn deluge_sample_region_acquire_ex(
        &mut self,
        store: &mut Streaming<B, H>,
        src: DelugeSampleSource,
        index: u32,
        direction: i8,
        priority: u32,
    ) -> (r: (DelugeRegionState, Option<DelugeSampleRegion>))
        requires
            old(self).wf(),
            old(store).wf(),
        ensures
            final(self).wf(),
            final(store).wf(),
            final(self).spec_active() == old(self).spec_active(),
            if old(self).is_open(src) {
                &&& final(self)@ == old(self)@.update(src - 1, Some(final(self).source(src)))
                &&& exists|state: RegionState, out: Option<RegionOut>|
                    {
                        &&& #[trigger] acquired(
                            old(self).source(src),
                            *old(store),
                            index,
                            direction,
                            (state, out),
                            final(self).source(src),
                        )
                        &&& acquire_steps(
                            old(self).source(src),
                            *old(store),
                            index,
                            direction,
                            priority,
                            (state, out),
                            final(self).source(src),
                            *final(store),
                        )
                        &&& r.0 == <DelugeRegionState as vstd::std_specs::convert::FromSpec<
                            RegionState,
                        >>::from_spec(state)
                        &&& r.1 == region_of(out)
                    }
            } else {
                &&& r.0 == DelugeRegionState::Unavailable
                &&& r.1 is None
                &&& final(self)@ == old(self)@
                &&& *final(store) == *old(store)
            },
    {
        let ghost slots0 = self.slots@;
        if src == 0 || src as usize > self.slots.len() {
            return (DelugeRegionState::Unavailable, None);
        }
        let i: usize = src as usize - 1;
        match self.take(i) {
            Some(source) => {
                let mut source = source;
                let (state, out) = source.acquire_ex(store, index, direction, priority);
                self.slots.set(i, Some(source));
                proof {
                    assert(self@ =~= old(self)@.update(src - 1, Some(self.source(src))));
                    assert(acquired(
                        old(self).source(src),
                        *old(store),
                        index,
                        direction,
                        (state, out),
                        self.source(src),
                    ));
                }
                let region = match out {
                    Some(o) => Some(
                        DelugeSampleRegion {
                            payload_base: o.payload_base,
                            region_index: o.region_index,
                            resident_bytes: o.resident_bytes,
                            lease: o.lease,
                        },
                    ),
                    None => None,
                };
                (DelugeRegionState::from(state), region)
            },
            None => {
                assert(self.slots@ =~= slots0);
                (DelugeRegionState::Unavailable, None)
            },
        }
    }

    /// Takes the cursor out of slot `i`.
    fn take(&mut self, i: usize) -> (r: Option<SampleSource<ManagerResidency<B, H>>>)
        requires
            i < old(self)@.len(),
        ensures
            r == old(self)@[i as int],
            final(self)@ == old(self)@.update(i as int, None),
            final(self).active == old(self).active,
    {
        let mut none: Option<SampleSource<ManagerResidency<B, H>>> = None;
        self.slots.set_and_swap(i, &mut none);
        none
    }

    /// The same, as whether the region is ready.
    pub fn deluge_sample_region_acquire(
        &mut self,
        store: &mut Streaming<B, H>,
        src: DelugeSampleSource,
        index: u32,
        direction: i8,
        priority: u32,
    ) -> (r: (bool, Option<DelugeSampleRegion>))
        requires
            old(self).wf(),
            old(store).wf(),
        ensures
            final(self).wf(),
            final(store).wf(),
            final(self).spec_active() == old(self).spec_active(),
            r.0 <==> r.1 is Some,
            if old(self).is_open(src) {
                &&& final(self)@ == old(self)@.update(src - 1, Some(final(self).source(src)))
                &&& exists|state: RegionState, out: Option<RegionOut>|
                    {
                        &&& #[trigger] acquired(
                            old(self).source(src),
                            *old(store),
                            index,
                            direction,
                            (state, out),
                            final(self).source(src),
                        )
                        &&& acquire_steps(
                            old(self).source(src),
                            *old(store),
                            index,
                            direction,
                            priority,
                            (state, out),
                            final(self).source(src),
                            *final(store),
                        )
                        &&& r.0 == (state == RegionState::Ready)
                        &&& r.1 == region_of(out)
                    }
            } else {
                &&& !r.0
                &&& final(self)@ == old(self)@
                &&& *final(store) == *old(store)
            },
    {
        let (state, out) = self.deluge_sample_region_acquire_ex(
            store,
            src,
            index,
            direction,
            priority,
        );
        (state == DelugeRegionState::Ready, out)
    }

    /// What became of cluster `index`, as far as the cursor `src` knows. A handle that is
    /// not open knows nothing.
    pub fn deluge_sample_region_state(
        &mut self,
        store: &mut Streaming<B, H>,
        src: DelugeSampleSource,
        index: u32,
    ) -> (r: DelugeRegionState)
        requires
            old(self).wf(),
            old(store).wf(),
        ensures
            final(self).wf(),
            final(store).wf(),
            final(self).spec_active() == old(self).spec_active(),
            if old(self).is_open(src) {
                &&& final(self)@ == old(self)@.update(src - 1, Some(final(self).source(src)))
                &&& observes(
                    old(self).source(src),
                    *old(store),
                    index,
                    final(self).source(src),
                    *final(store),
                )
                &&& *final(store) == (Streaming { res: final(store).res, ..*old(store) })
                &&& final(store).data() == old(store).data()
                &&& final(store).res.backend == old(store).res.backend
                &&& final(store).res@ == (Model { stats: final(store).res@.stats, ..old(store).res@
                })
                &&& r == <DelugeRegionState as vstd::std_specs::convert::FromSpec<
                    RegionState,
                >>::from_spec(old(self).source(src).state_of(old(store), index))
            } else {
                &&& r == DelugeRegionState::Unavailable
                &&& final(self)@ == old(self)@
                &&& *final(store) == *old(store)
            },
    {
        let ghost slots0 = self.slots@;
        if src == 0 || src as usize > self.slots.len() {
            return DelugeRegionState::Unavailable;
        }
        let i: usize = src as usize - 1;
        match self.take(i) {
            Some(source) => {
                let mut source = source;
                let state = source.state(store, index);
                self.slots.set(i, Some(source));
                assert(self@ =~= old(self)@.update(src - 1, Some(self.source(src))));
                DelugeRegionState::from(state)
            },
            None => {
                assert(self.slots@ =~= slots0);
                DelugeRegionState::Unavailable
            },
        }
    }

    /// Takes an independent pin. Nothing before a cursor was ever opened, and for 0.
    pub fn deluge_sample_region_retain(&self, store: &mut Streaming<B, H>, lease: u64)
        requires
            old(store).wf(),
        ensures
            final(store).wf(),
            *final(store) == (Streaming { res: final(store).res, ..*old(store) }),
            final(store).data() == old(store).data(),
            final(store).res.backend == old(store).res.backend,
            final(store).res@ == (if !self.spec_active() || lease == 0 {
                old(store).res@
            } else {
                old(store).res@.retain(token_slot(lease), token_gen(lease))
            }),
    {
        if self.active {
            store.res.retain_token(lease);
        }
    }

    /// Gives an independent pin back. Nothing before a cursor was ever opened, and for 0.
    pub fn deluge_sample_region_release(&self, store: &mut Streaming<B, H>, lease: u64)
        requires
            old(store).wf(),
        ensures
            final(store).wf(),
            *final(store) == (Streaming { res: final(store).res, ..*old(store) }),
            final(store).data() == old(store).data(),
            final(store).res.backend == old(store).res.backend,
            final(store).res@ == (if !self.spec_active() || lease == 0 {
                old(store).res@
            } else {
                old(store).res@.release_slot(token_slot(lease), token_gen(lease))
            }),
    {
        if self.active {
            store.res.release_token(lease);
        }
    }

    /// Closes a cursor: gives its pins back, and its slot to whoever opens the next.
    pub fn deluge_sample_source_close(
        &mut self,
        store: &mut Streaming<B, H>,
        src: DelugeSampleSource,
    )
        requires
            old(self).wf(),
            old(store).wf(),
        ensures
            final(self).wf(),
            final(store).wf(),
            final(self).spec_active() == old(self).spec_active(),
            if old(self).is_open(src) {
                &&& final(self)@ == old(self)@.update(src - 1, None)
                &&& exists|r: ManagerResidency<B, H>| #[trigger]
                    closes(old(self).source(src), *old(store), (r, *final(store)))
            } else {
                final(self)@ == old(self)@ && *final(store) == *old(store)
            },
    {
        let ghost slots0 = self.slots@;
        if src == 0 || src as usize > self.slots.len() {
            return;
        }
        match self.take(src as usize - 1) {
            Some(source) => {
                let mut source = source;
                source.close(store);
                assert(closes(
                    old(self).source(src),
                    *old(store),
                    (source.spec_residency(), *store),
                ));
            },
            None => {
                assert(self.slots@ =~= slots0);
            },
        }
    }
}

/// A cursor as it is opened.
pub open spec fn opened<B: Backend, H: Host>(
    s: SampleSource<ManagerResidency<B, H>>,
    asset: u32,
    geometry: Geometry,
) -> bool {
    &&& s.spec_geo() == geometry
    &&& s.spec_residency().spec_asset() == asset
    &&& s.spec_residency().spec_cluster_size() == geometry.cluster_size_bytes
    &&& s.spec_residency().clusters() == clusters_of(geometry)
    &&& s.spec_residency().live() == 0
    &&& s.pins() == 0
    &&& s.distinct()
}

/// The region that a cursor gives.
pub open spec fn region_of(out: Option<RegionOut>) -> Option<DelugeSampleRegion> {
    match out {
        Some(o) => Some(
            DelugeSampleRegion {
                payload_base: o.payload_base,
                region_index: o.region_index,
                resident_bytes: o.resident_bytes,
                lease: o.lease,
            },
        ),
        None => None,
    }
}

/// A sample has a cluster exactly if the audio, counted from its own start, reaches into it. A
/// sample of unknown length has all that can be counted, and one without clusters has none.
pub proof fn clusters_hold_all_of_the_audio(geo: Geometry, i: u32)
    requires
        i < u32::MAX,
    ensures
        geo.cluster_size_bytes > 0 && geo.audio_data_length_bytes != 0
            && geo.audio_data_length_bytes != 0x8FFF_FFFF_FFFF_FFFF ==> (i < clusters_of(geo) <==> i
            * geo.cluster_size_bytes < geo.audio_data_length_bytes),
        geo.cluster_size_bytes > 0 && (geo.audio_data_length_bytes == 0
            || geo.audio_data_length_bytes == 0x8FFF_FFFF_FFFF_FFFF) ==> i < clusters_of(geo),
        geo.cluster_size_bytes == 0 ==> clusters_of(geo) == 0,
        0 <= clusters_of(geo) <= u32::MAX,
{
    if geo.cluster_size_bytes > 0 && geo.length_known() {
        let l = geo.audio_data_length_bytes as int;
        let c = geo.cluster_size_bytes as int;
        let n = (l + c - 1) / c;
        vstd::arithmetic::div_mod::lemma_fundamental_div_mod(l + c - 1, c);
        vstd::arithmetic::div_mod::lemma_mod_bound(l + c - 1, c);
        vstd::arithmetic::div_mod::lemma_div_pos_is_pos(l + c - 1, c);
        assert(i < n <==> i * c < l) by (nonlinear_arith)
            requires
                l + c - 1 == c * n + (l + c - 1) % c,
                0 <= (l + c - 1) % c < c,
                0 < c,
                0 <= i,
        ;
    }
}

/// What a cursor gives is handed on as it is, and there are 256 cursors.
pub proof fn regions_are_handed_on(out: Option<RegionOut>)
    ensures
        out is None ==> region_of(out) is None,
        out is Some ==> region_of(out) is Some && region_of(out)->0.payload_base
            == out->0.payload_base && region_of(out)->0.region_index == out->0.region_index
            && region_of(out)->0.resident_bytes == out->0.resident_bytes && region_of(out)->0.lease
            == out->0.lease,
        <DelugeRegionState as vstd::std_specs::convert::FromSpec<RegionState>>::from_spec(
            RegionState::Ready,
        ) == DelugeRegionState::Ready,
        <DelugeRegionState as vstd::std_specs::convert::FromSpec<RegionState>>::from_spec(
            RegionState::Loading,
        ) == DelugeRegionState::Loading,
        <DelugeRegionState as vstd::std_specs::convert::FromSpec<RegionState>>::from_spec(
            RegionState::Unavailable,
        ) == DelugeRegionState::Unavailable,
        POOL_SIZE == 256,
{
}

} // verus!
