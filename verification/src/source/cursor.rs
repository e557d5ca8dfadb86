//! The cursor of one voice over one sample: the cluster it reads (`current`), one that is
//! still loading for it (`pending`), and its neighbour in the direction of play
//! (`prefetch`).
use crate::source::geometry::{resident_bytes_for, Geometry};
use crate::source::residency::{Get, RegionPin, Residency};
use vstd::prelude::*;

verus! {

/// What became of a region.
#[derive(Clone, Copy, PartialEq, Eq, Debug, Structural)]
pub enum RegionState {
    Ready,
    Loading,
    Unavailable,
}

/// A region that is ready to be read.
#[derive(Clone, Copy, PartialEq, Eq, Debug)]
pub struct RegionOut {
    pub payload_base: usize,
    pub region_index: u32,
    pub resident_bytes: u32,
    /// The token for an independent pin.
    pub lease: u64,
}

/// The cursor.
#[verifier::reject_recursive_types(R)]
pub struct SampleSource<R: Residency> {
    residency: R,
    geo: Geometry,
    current: Option<R::Pin>,
    pending: Option<R::Pin>,
    prefetch: Option<R::Pin>,
}

/// The cluster that a slot pins.
pub open spec fn pinned<P: RegionPin>(slot: Option<P>) -> Option<u32> {
    match slot {
        Some(p) => Some(p.spec_index()),
        None => None,
    }
}

/// 1 for a slot that pins a cluster.
pub open spec fn held<P>(slot: Option<P>) -> int {
    if slot is Some {
        1
    } else {
        0
    }
}

/// The cluster next to `index` in the direction of play; none below 0, and none above what
/// 32 bits can count.
pub open spec fn neighbour(index: u32, direction: i8) -> Option<u32> {
    let n = index + direction;
    if n < 0 || n > u32::MAX {
        None
    } else {
        Some(n as u32)
    }
}

impl<R: Residency> SampleSource<R> {
    pub closed spec fn spec_residency(&self) -> R {
        self.residency
    }

    pub closed spec fn spec_geo(&self) -> Geometry {
        self.geo
    }

    pub closed spec fn spec_current(&self) -> Option<R::Pin> {
        self.current
    }

    pub closed spec fn spec_pending(&self) -> Option<R::Pin> {
        self.pending
    }

    pub closed spec fn spec_prefetch(&self) -> Option<R::Pin> {
        self.prefetch
    }

    pub open spec fn wf(&self, store: &R::Store) -> bool {
        self.spec_residency().wf(store)
    }

    /// Pins that the cursor holds.
    pub open spec fn pins(&self) -> int {
        held(self.spec_current()) + held(self.spec_pending()) + held(self.spec_prefetch())
    }

    /// Pins given out by the residency that the cursor does not hold.
    pub open spec fn stray(&self) -> int {
        self.spec_residency().live() - self.pins()
    }

    /// No two slots pin the same cluster.
    pub open spec fn distinct(&self) -> bool {
        let c = pinned(self.spec_current());
        let p = pinned(self.spec_pending());
        let n = pinned(self.spec_prefetch());
        &&& c is Some && p is Some ==> c != p
        &&& c is Some && n is Some ==> c != n
        &&& p is Some && n is Some ==> p != n
    }

    /// A cursor that pins nothing.
    pub fn new(residency: R, geo: Geometry) -> (r: Self)
        ensures
            r.spec_residency() == residency,
            r.spec_geo() == geo,
            r.spec_current() is None,
            r.spec_pending() is None,
            r.spec_prefetch() is None,
            r.distinct(),
    {
        SampleSource { residency, geo, current: None, pending: None, prefetch: None }
    }

    /// Gives the pin of `pending` back.
    fn release_pending(&mut self, store: &mut R::Store)
        requires
            old(self).wf(old(store)),
        ensures
            final(self).wf(final(store)),
            final(self).pending is None,
            given_back::<R>(
                (old(self).residency, *old(store)),
                old(self).pending,
                (final(self).residency, *final(store)),
            ),
            final(self).geo == old(self).geo,
            final(self).current == old(self).current,
            final(self).prefetch == old(self).prefetch,
            final(self).residency.clusters() == old(self).residency.clusters(),
            final(self).stray() == old(self).stray(),
    {
        let p = self.pending.take();
        match p {
            Some(pin) => self.residency.release_pin(store, pin),
            None => {},
        }
    }

    /// Gives the pin of `prefetch` back.
    fn release_prefetch(&mut self, store: &mut R::Store)
        requires
            old(self).wf(old(store)),
        ensures
            final(self).wf(final(store)),
            final(self).prefetch is None,
            given_back::<R>(
                (old(self).residency, *old(store)),
                old(self).prefetch,
                (final(self).residency, *final(store)),
            ),
            final(self).geo == old(self).geo,
            final(self).current == old(self).current,
            final(self).pending == old(self).pending,
            final(self).residency.clusters() == old(self).residency.clusters(),
            final(self).stray() == old(self).stray(),
    {
        let p = self.prefetch.take();
        match p {
            Some(pin) => self.residency.release_pin(store, pin),
            None => {},
        }
    }

    /// Gives the pin of `current` back.
    fn release_current(&mut self, store: &mut R::Store)
        requires
            old(self).wf(old(store)),
        ensures
            final(self).wf(final(store)),
            final(self).current is None,
            given_back::<R>(
                (old(self).residency, *old(store)),
                old(self).current,
                (final(self).residency, *final(store)),
            ),
            final(self).geo == old(self).geo,
            final(self).pending == old(self).pending,
            final(self).prefetch == old(self).prefetch,
            final(self).residency.clusters() == old(self).residency.clusters(),
            final(self).stray() == old(self).stray(),
    {
        let p = self.current.take();
        match p {
            Some(pin) => self.residency.release_pin(store, pin),
            None => {},
        }
    }

    /// The cluster that a slot pins.
    fn slot_index(slot: &Option<R::Pin>) -> (r: Option<u32>)
        ensures
            r == pinned(*slot),
    {
        match slot {
            Some(p) => Some(p.index()),
            None => None,
        }
    }

    /// Takes the prefetched pin if it is on cluster `index`.
    fn take_promoted(&mut self, index: u32) -> (r: Option<R::Pin>)
        ensures
            final(self).residency == old(self).residency,
            final(self).geo == old(self).geo,
            final(self).current == old(self).current,
            final(self).pending == old(self).pending,
            if pinned(old(self).prefetch) == Some(index) {
                r == old(self).prefetch && final(self).prefetch is None
            } else {
                r is None && final(self).prefetch == old(self).prefetch
            },
    {
        match Self::slot_index(&self.prefetch) {
            Some(i) => if i == index {
                self.prefetch.take()
            } else {
                None
            },
            None => None,
        }
    }

    /// Prefetches the neighbour of `index` in the direction of play, unless it is out of
    /// range or prefetched already. What was prefetched is given back first.
    fn prefetch_neighbour(
        &mut self,
        store: &mut R::Store,
        index: u32,
        direction: i8,
        priority: u32,
    )
        requires
            old(self).wf(old(store)),
        ensures
            final(self).wf(final(store)),
            final(self).geo == old(self).geo,
            final(self).current == old(self).current,
            final(self).pending == old(self).pending,
            final(self).residency.clusters() == old(self).residency.clusters(),
            final(self).stray() == old(self).stray(),
            prefetch_rule::<R>(
                old(self).prefetch,
                neighbour(index, direction),
                old(self).residency.clusters(),
                final(self).prefetch,
            ),
            prefetch_steps::<R>(
                (old(self).residency, *old(store)),
                old(self).prefetch,
                neighbour(index, direction),
                priority,
                final(self).prefetch,
                (final(self).residency, *final(store)),
            ),
    {
        let next_signed: i64 = index as i64 + direction as i64;
        if next_signed < 0 || next_signed > u32::MAX as i64 {
            return;
        }
        let next: u32 = next_signed as u32;
        if next >= self.residency.num_clusters() {
            return;
        }
        match Self::slot_index(&self.prefetch) {
            Some(i) => if i == next {
                return;
            },
            None => {},
        }
        self.release_prefetch(store);
        let ghost mid = (self.residency, *store);
        assert(given_back::<R>((old(self).residency, *old(store)), old(self).prefetch, mid));
        let get = self.residency.acquire(store, next, priority);
        let ghost g = get;
        let ghost y = (self.residency, *store);
        assert(gets::<R>(mid, next, priority, g, y));
        match get {
            Get::Unavailable => {},
            Get::Loading(pin) => {
                self.prefetch = Some(pin);
            },
            Get::Ready(pin) => {
                self.prefetch = Some(pin);
            },
        }
        proof {
            assert(self.prefetch == pin_of(g));
            assert((self.residency, *store) == y);
            assert(prefetch_steps::<R>(
                (old(self).residency, *old(store)),
                old(self).prefetch,
                Some(next),
                priority,
                self.prefetch,
                y,
            ));
        }
    }

    /// Makes cluster `index` resident and pins it, or has it loaded, without waiting.
    /// A prefetched cluster is promoted in place of a fresh acquire. On `Ready` its
    /// neighbour in `direction` is prefetched.
    pub fn acquire_ex(
        &mut self,
        store: &mut R::Store,
        index: u32,
        direction: i8,
        priority: u32,
    ) -> (r: (RegionState, Option<RegionOut>))
        requires
            old(self).wf(old(store)),
        ensures
            final(self).wf(final(store)),
            acquired(*old(self), *old(store), index, direction, r, *final(self)),
            acquire_steps(
                *old(self),
                *old(store),
                index,
                direction,
                priority,
                r,
                *final(self),
                *final(store),
            ),
    {
        let ghost from = *old(self);
        let ghost s0 = *old(store);
        let get = match self.take_promoted(index) {
            Some(pin) => if self.residency.is_ready(store, &pin) {
                Get::Ready(pin)
            } else {
                Get::Loading(pin)
            },
            None => self.residency.acquire(store, index, priority),
        };
        let ghost g = get;
        let ghost x1 = (self.residency, *store);
        assert(answers(from, s0, index, priority, g, x1));
        match get {
            Get::Unavailable => {
                self.release_pending(store);
                let r = (RegionState::Unavailable, None);
                proof {
                    let x2 = (self.residency, *store);
                    lemma_acquire_steps(
                        from,
                        s0,
                        index,
                        direction,
                        priority,
                        g,
                        x1,
                        x2,
                        r,
                        *self,
                        *store,
                    );
                }
                r
            },
            Get::Loading(pin) => {
                self.release_pending(store);
                let ghost x2 = (self.residency, *store);
                self.pending = Some(pin);
                let r = (RegionState::Loading, None);
                proof {
                    lemma_acquire_steps(
                        from,
                        s0,
                        index,
                        direction,
                        priority,
                        g,
                        x1,
                        x2,
                        r,
                        *self,
                        *store,
                    );
                }
                r
            },
            Get::Ready(pin) => {
                self.release_pending(store);
                let ghost x2 = (self.residency, *store);
                assert(given_back::<R>(x1, from.spec_pending(), x2));
                let token: u64 = self.residency.token(store, &pin);
                let ghost x3 = (self.residency, *store);
                let payload_base: usize = pin.payload();
                let same = match Self::slot_index(&self.current) {
                    Some(i) => i == index,
                    None => false,
                };
                let ghost ready_pin = pin;
                if same {
                    self.residency.release_pin(store, pin);
                } else {
                    self.release_current(store);
                    self.current = Some(pin);
                }
                let ghost x4 = (self.residency, *store);
                let out = RegionOut {
                    payload_base,
                    region_index: index,
                    resident_bytes: resident_bytes_for(index, &self.geo),
                    lease: token,
                };
                self.prefetch_neighbour(store, index, direction, priority);
                let r = (RegionState::Ready, Some(out));
                proof {
                    assert(g == Get::Ready(ready_pin));
                    assert(r.1 == Some(out));
                    assert(r.1->0 == out);
                    assert(ready_steps(
                        from,
                        index,
                        direction,
                        priority,
                        ready_pin,
                        out,
                        x2,
                        x3,
                        x4,
                        *self,
                        *store,
                    ));
                    assert(follows(from, index, direction, priority, g, x2, r, *self, *store));
                    lemma_acquire_steps(
                        from,
                        s0,
                        index,
                        direction,
                        priority,
                        g,
                        x1,
                        x2,
                        r,
                        *self,
                        *store,
                    );
                }
                r
            },
        }
    }

    /// What became of cluster `index`, as far as the cursor's slots know. A pin that was
    /// taken while loading may have become ready since.
    pub fn state(&mut self, store: &mut R::Store, index: u32) -> (r: RegionState)
        requires
            old(self).wf(old(store)),
        ensures
            final(self).wf(final(store)),
            r == old(self).state_of(old(store), index),
            observes(*old(self), *old(store), index, *final(self), *final(store)),
    {
        match Self::slot_index(&self.current) {
            Some(i) => if i == index {
                return RegionState::Ready;
            },
            None => {},
        }
        match &self.pending {
            Some(p) => if p.index() == index {
                return if self.residency.is_ready(store, p) {
                    RegionState::Ready
                } else {
                    RegionState::Loading
                };
            },
            None => {},
        }
        match &self.prefetch {
            Some(p) => if p.index() == index {
                return if self.residency.is_ready(store, p) {
                    RegionState::Ready
                } else {
                    RegionState::Loading
                };
            },
            None => {},
        }
        RegionState::Unavailable
    }

    /// What became of cluster `index`: `current` is read, so it is ready; `pending` and
    /// `prefetch` are as ready as their pin is.
    pub open spec fn state_of(&self, store: &R::Store, index: u32) -> RegionState {
        if pinned(self.spec_current()) == Some(index) {
            RegionState::Ready
        } else if pinned(self.spec_pending()) == Some(index) {
            if self.spec_residency().ready(store, &self.spec_pending()->0) {
                RegionState::Ready
            } else {
                RegionState::Loading
            }
        } else if pinned(self.spec_prefetch()) == Some(index) {
            if self.spec_residency().ready(store, &self.spec_prefetch()->0) {
                RegionState::Ready
            } else {
                RegionState::Loading
            }
        } else {
            RegionState::Unavailable
        }
    }

    /// The pin that is asked what became of cluster `index`: `pending` or `prefetch`, if it
    /// is theirs; what is `current` need not be asked.
    pub open spec fn asked_pin(&self, index: u32) -> Option<R::Pin> {
        if pinned(self.spec_current()) == Some(index) {
            None
        } else if pinned(self.spec_pending()) == Some(index) {
            self.spec_pending()
        } else if pinned(self.spec_prefetch()) == Some(index) {
            self.spec_prefetch()
        } else {
            None
        }
    }

    /// Takes an independent pin. The cursor's own are not touched.
    pub fn retain(&mut self, store: &mut R::Store, token: u64)
        requires
            old(self).wf(old(store)),
        ensures
            final(self).wf(final(store)),
            final(self).spec_geo() == old(self).spec_geo(),
            final(self).spec_current() == old(self).spec_current(),
            final(self).spec_pending() == old(self).spec_pending(),
            final(self).spec_prefetch() == old(self).spec_prefetch(),
            final(self).spec_residency().clusters() == old(self).spec_residency().clusters(),
            final(self).stray() == old(self).stray(),
            R::retains(
                old(self).spec_residency(),
                *old(store),
                token,
                final(self).spec_residency(),
                *final(store),
            ),
            forall|j: u32| #[trigger]
                final(self).state_of(final(store), j) == old(self).state_of(old(store), j),
    {
        self.residency.retain_token(store, token);
    }

    /// Gives an independent pin back. The cursor's own are not touched.
    pub fn release(&mut self, store: &mut R::Store, token: u64)
        requires
            old(self).wf(old(store)),
        ensures
            final(self).wf(final(store)),
            final(self).spec_geo() == old(self).spec_geo(),
            final(self).spec_current() == old(self).spec_current(),
            final(self).spec_pending() == old(self).spec_pending(),
            final(self).spec_prefetch() == old(self).spec_prefetch(),
            final(self).spec_residency().clusters() == old(self).spec_residency().clusters(),
            final(self).stray() == old(self).stray(),
            R::drops(
                old(self).spec_residency(),
                *old(store),
                token,
                final(self).spec_residency(),
                *final(store),
            ),
            forall|j: u32| #[trigger]
                final(self).state_of(final(store), j) == old(self).state_of(old(store), j),
    {
        self.residency.release_token(store, token);
    }

    /// Gives every pin of the cursor back.
    pub fn close(&mut self, store: &mut R::Store)
        requires
            old(self).wf(old(store)),
        ensures
            final(self).wf(final(store)),
            final(self).spec_geo() == old(self).spec_geo(),
            final(self).spec_current() is None,
            final(self).spec_pending() is None,
            final(self).spec_prefetch() is None,
            final(self).spec_residency().clusters() == old(self).spec_residency().clusters(),
            final(self).spec_residency().live() == old(self).spec_residency().live() - old(
                self,
            ).pins(),
            closes(*old(self), *old(store), (final(self).spec_residency(), *final(store))),
    {
        self.release_current(store);
        let ghost x = (self.residency, *store);
        self.release_pending(store);
        let ghost y = (self.residency, *store);
        self.release_prefetch(store);
        assert(given_back::<R>(x, old(self).pending, y));
    }

    /// The cluster that `current` pins.
    pub fn current_index(&self) -> (r: Option<u32>)
        ensures
            r == pinned(self.spec_current()),
    {
        Self::slot_index(&self.current)
    }

    /// The cluster that `pending` pins.
    pub fn pending_index(&self) -> (r: Option<u32>)
        ensures
            r == pinned(self.spec_pending()),
    {
        Self::slot_index(&self.pending)
    }

    /// The cluster that `prefetch` pins.
    pub fn prefetch_index(&self) -> (r: Option<u32>)
        ensures
            r == pinned(self.spec_prefetch()),
    {
        Self::slot_index(&self.prefetch)
    }
}

/// Asking the cursor `a` what became of cluster `index` only observes: at most one question
/// about one pin is asked, no pin is taken or given back, and every cluster is as it was.
pub open spec fn observes<R: Residency>(
    a: SampleSource<R>,
    store: R::Store,
    index: u32,
    b: SampleSource<R>,
    t: R::Store,
) -> bool {
    &&& b.spec_geo() == a.spec_geo()
    &&& b.spec_current() == a.spec_current()
    &&& b.spec_pending() == a.spec_pending()
    &&& b.spec_prefetch() == a.spec_prefetch()
    &&& b.spec_residency().clusters() == a.spec_residency().clusters()
    &&& b.spec_residency().live() == a.spec_residency().live()
    &&& match a.asked_pin(index) {
        Some(pin) => R::asks(a.spec_residency(), store, pin, b.spec_residency(), t),
        None => b.spec_residency() == a.spec_residency() && t == store,
    }
    &&& forall|j: u32| #[trigger] b.state_of(&t, j) == a.state_of(&store, j)
}

/// What acquiring cluster `index` makes of the cursor `a`, `r` being the result:
/// - pins are neither lost nor made up;
/// - a prefetched cluster is not acquired again: it is as ready as its pin is;
/// - `Unavailable` drops `pending` and leaves the rest;
/// - `Loading` keeps the cluster in `pending`, and `current` can still be read;
/// - `Ready` makes the cluster `current` (if it is so already, its pin stays the one it
///   was), drops `pending` and prefetches the neighbour;
/// - no two slots pin the same cluster, unless there is no direction to prefetch in, or the
///   residency says of the cluster that is being read that it is loading.
pub open spec fn acquired<R: Residency>(
    a: SampleSource<R>,
    store: R::Store,
    index: u32,
    direction: i8,
    r: (RegionState, Option<RegionOut>),
    b: SampleSource<R>,
) -> bool {
    &&& b.spec_geo() == a.spec_geo()
    &&& b.spec_residency().clusters() == a.spec_residency().clusters()
    &&& b.stray() == a.stray()
    &&& r.1 is Some <==> r.0 == RegionState::Ready
    &&& pinned(a.spec_prefetch()) == Some(index) ==> r.0 == (if a.spec_residency().ready(
        &store,
        &a.spec_prefetch()->0,
    ) {
        RegionState::Ready
    } else {
        RegionState::Loading
    })
    &&& match r.0 {
        RegionState::Unavailable => {
            &&& b.spec_current() == a.spec_current()
            &&& b.spec_pending() is None
            &&& b.spec_prefetch() == a.spec_prefetch()
        },
        RegionState::Loading => {
            &&& b.spec_current() == a.spec_current()
            &&& pinned(b.spec_pending()) == Some(index)
            &&& b.spec_prefetch() == unpromoted::<R>(a.spec_prefetch(), index)
        },
        RegionState::Ready => {
            &&& pinned(b.spec_current()) == Some(index)
            &&& pinned(a.spec_current()) == Some(index) ==> b.spec_current() == a.spec_current()
            &&& b.spec_pending() is None
            &&& prefetch_rule::<R>(
                unpromoted::<R>(a.spec_prefetch(), index),
                neighbour(index, direction),
                a.spec_residency().clusters(),
                b.spec_prefetch(),
            )
            &&& pinned(a.spec_current()) != Some(index) ==> r.1->0.payload_base
                == b.spec_current()->0.spec_payload()
            &&& r.1->0.region_index == index
            &&& r.1->0.resident_bytes == a.spec_geo().resident(index as int)
        },
    }
    &&& a.distinct() && direction != 0 && !(r.0 == RegionState::Loading && pinned(a.spec_current())
        == Some(index)) ==> b.distinct()
}

/// The pin of a slot, if there is one, given back.
pub open spec fn given_back<R: Residency>(
    x: (R, R::Store),
    slot: Option<R::Pin>,
    y: (R, R::Store),
) -> bool {
    match slot {
        Some(pin) => R::releases(x.0, x.1, pin, y.0, y.1),
        None => y == x,
    }
}

/// The pins of the cursor `a` given back, one after the other.
pub open spec fn closes<R: Residency>(
    a: SampleSource<R>,
    store: R::Store,
    z: (R, R::Store),
) -> bool {
    exists|x: (R, R::Store), y: (R, R::Store)|
        {
            &&& #[trigger] given_back::<R>((a.spec_residency(), store), a.spec_current(), x)
            &&& #[trigger] given_back::<R>(x, a.spec_pending(), y)
            &&& given_back::<R>(y, a.spec_prefetch(), z)
        }
}

/// Cluster `index` acquired, with the answer `g`.
pub open spec fn gets<R: Residency>(
    x: (R, R::Store),
    index: u32,
    priority: u32,
    g: Get<R::Pin>,
    y: (R, R::Store),
) -> bool {
    R::acquires(x.0, x.1, index, priority, g, y.0, y.1)
}

/// How prefetching the neighbour `next` goes: unless there is nothing to do, the slot's pin
/// is given back, and then the neighbour is acquired.
pub open spec fn prefetch_steps<R: Residency>(
    x: (R, R::Store),
    before: Option<R::Pin>,
    next: Option<u32>,
    priority: u32,
    after: Option<R::Pin>,
    y: (R, R::Store),
) -> bool {
    if next is None || next->0 >= x.0.clusters() || pinned(before) == next {
        after == before && y == x
    } else {
        exists|mid: (R, R::Store), g: Get<R::Pin>|
            {
                &&& #[trigger] given_back::<R>(x, before, mid)
                &&& #[trigger] gets::<R>(mid, next->0, priority, g, y)
                &&& after == pin_of(g)
            }
    }
}

/// The pin that comes with an answer.
pub open spec fn pin_of<P>(g: Get<P>) -> Option<P> {
    match g {
        Get::Ready(p) => Some(p),
        Get::Loading(p) => Some(p),
        Get::Unavailable => None,
    }
}

/// How cluster `index` is got: a prefetched pin is asked whether it is ready; without one
/// the residency is asked for the cluster.
pub open spec fn answers<R: Residency>(
    a: SampleSource<R>,
    store: R::Store,
    index: u32,
    priority: u32,
    g: Get<R::Pin>,
    x: (R, R::Store),
) -> bool {
    let r = a.spec_residency();
    if pinned(a.spec_prefetch()) == Some(index) {
        let pin = a.spec_prefetch()->0;
        &&& R::asks(r, store, pin, x.0, x.1)
        &&& g == (if r.ready(&store, &pin) {
            Get::Ready(pin)
        } else {
            Get::Loading(pin)
        })
    } else {
        R::acquires(r, store, index, priority, g, x.0, x.1)
    }
}

/// What follows the answer that `pin` is ready, when `pending` has been given back: its
/// token is asked for; it becomes `current` and the pin there is given back, or, if that is
/// on the same cluster, it is given back itself; and the neighbour is prefetched.
pub open spec fn ready_steps<R: Residency>(
    a: SampleSource<R>,
    index: u32,
    direction: i8,
    priority: u32,
    pin: R::Pin,
    out: RegionOut,
    x2: (R, R::Store),
    x3: (R, R::Store),
    x4: (R, R::Store),
    b: SampleSource<R>,
    t: R::Store,
) -> bool {
    &&& R::asks(x2.0, x2.1, pin, x3.0, x3.1)
    &&& out.lease == x2.0.token_of(&x2.1, &pin)
    &&& out.payload_base == pin.spec_payload()
    &&& if pinned(a.spec_current()) == Some(index) {
        R::releases(x3.0, x3.1, pin, x4.0, x4.1) && b.spec_current() == a.spec_current()
    } else {
        given_back::<R>(x3, a.spec_current(), x4) && b.spec_current() == Some(pin)
    }
    &&& prefetch_steps::<R>(
        x4,
        unpromoted::<R>(a.spec_prefetch(), index),
        neighbour(index, direction),
        priority,
        b.spec_prefetch(),
        (b.spec_residency(), t),
    )
}

/// How acquiring cluster `index` goes, step by step: the answer, `pending` given back, and
/// what follows each answer.
#[verifier::opaque]
pub open spec fn acquire_steps<R: Residency>(
    a: SampleSource<R>,
    store: R::Store,
    index: u32,
    direction: i8,
    priority: u32,
    r: (RegionState, Option<RegionOut>),
    b: SampleSource<R>,
    t: R::Store,
) -> bool {
    exists|g: Get<R::Pin>, x1: (R, R::Store), x2: (R, R::Store)|
        {
            &&& #[trigger] answers(a, store, index, priority, g, x1)
            &&& #[trigger] given_back::<R>(x1, a.spec_pending(), x2)
            &&& follows(a, index, direction, priority, g, x2, r, b, t)
        }
}

proof fn lemma_acquire_steps<R: Residency>(
    a: SampleSource<R>,
    store: R::Store,
    index: u32,
    direction: i8,
    priority: u32,
    g: Get<R::Pin>,
    x1: (R, R::Store),
    x2: (R, R::Store),
    r: (RegionState, Option<RegionOut>),
    b: SampleSource<R>,
    t: R::Store,
)
    requires
        answers(a, store, index, priority, g, x1),
        given_back::<R>(x1, a.spec_pending(), x2),
        follows(a, index, direction, priority, g, x2, r, b, t),
    ensures
        acquire_steps(a, store, index, direction, priority, r, b, t),
{
    reveal(acquire_steps);
}

/// What follows the answer `g`, when `pending` has been given back.
pub open spec fn follows<R: Residency>(
    a: SampleSource<R>,
    index: u32,
    direction: i8,
    priority: u32,
    g: Get<R::Pin>,
    x2: (R, R::Store),
    r: (RegionState, Option<RegionOut>),
    b: SampleSource<R>,
    t: R::Store,
) -> bool {
    match g {
        Get::Unavailable => {
            &&& r.0 == RegionState::Unavailable
            &&& (b.spec_residency(), t) == x2
        },
        Get::Loading(pin) => {
            &&& r.0 == RegionState::Loading
            &&& b.spec_pending() == Some(pin)
            &&& (b.spec_residency(), t) == x2
        },
        Get::Ready(pin) => {
            &&& r.0 == RegionState::Ready
            &&& r.1 is Some
            &&& exists|x3: (R, R::Store), x4: (R, R::Store)| #[trigger]
                ready_steps(a, index, direction, priority, pin, r.1->0, x2, x3, x4, b, t)
        },
    }
}

/// The prefetch slot when a pin on `index` has been promoted out of it.
pub open spec fn unpromoted<R: Residency>(prefetch: Option<R::Pin>, index: u32) -> Option<R::Pin> {
    if pinned(prefetch) == Some(index) {
        None
    } else {
        prefetch
    }
}

/// What prefetching makes of the slot `before`: nothing if there is no neighbour `next` or
/// it is there already; otherwise the slot holds the neighbour, or nothing.
pub open spec fn prefetch_rule<R: Residency>(
    before: Option<R::Pin>,
    next: Option<u32>,
    clusters: u32,
    after: Option<R::Pin>,
) -> bool {
    if next is None || next->0 >= clusters || pinned(before) == next {
        after == before
    } else {
        after is None || pinned(after) == next
    }
}

} // verus!
