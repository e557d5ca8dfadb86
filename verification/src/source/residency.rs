//! What the cursor asks of whoever makes clusters resident.
use vstd::prelude::*;

verus! {

/// The answer to making a cluster resident. With the first two comes a pin on it, which
/// the cursor owns.
pub enum Get<P> {
    Ready(P),
    Loading(P),
    Unavailable,
}

/// A pin on one resident cluster. Whoever holds it gives it back through
/// `Residency::release_pin`.
pub trait RegionPin {
    spec fn spec_index(&self) -> u32;

    spec fn spec_payload(&self) -> usize;

    /// The cluster that is pinned.
    fn index(&self) -> (r: u32)
        ensures
            r == self.spec_index(),
    ;

    /// The address of the cluster's data, which is there once the pin is ready.
    fn payload(&self) -> (r: usize)
        ensures
            r == self.spec_payload(),
    ;
}

/// Makes clusters of one sample resident. `Store` is where they are kept.
pub trait Residency: Sized {
    type Pin: RegionPin;

    type Store;

    spec fn wf(&self, store: &Self::Store) -> bool;

    /// How many clusters the sample has.
    spec fn clusters(&self) -> u32;

    /// Pins given out and not given back.
    spec fn live(&self) -> int;

    /// The data behind a pin has been read.
    spec fn ready(&self, store: &Self::Store, pin: &Self::Pin) -> bool;

    /// The token of an independent pin on the same cluster.
    spec fn token_of(&self, store: &Self::Store, pin: &Self::Pin) -> u64;

    /// Acquiring cluster `index` can answer `r` and lead from `(a, s)` to `(b, t)`.
    spec fn acquires(
        a: Self,
        s: Self::Store,
        index: u32,
        priority: u32,
        r: Get<Self::Pin>,
        b: Self,
        t: Self::Store,
    ) -> bool;

    /// Giving `pin` back can lead from `(a, s)` to `(b, t)`.
    spec fn releases(a: Self, s: Self::Store, pin: Self::Pin, b: Self, t: Self::Store) -> bool;

    /// A question about `pin` can lead from `(a, s)` to `(b, t)`.
    spec fn asks(a: Self, s: Self::Store, pin: Self::Pin, b: Self, t: Self::Store) -> bool;

    /// Taking the independent pin `token` can lead from `(a, s)` to `(b, t)`.
    spec fn retains(a: Self, s: Self::Store, token: u64, b: Self, t: Self::Store) -> bool;

    /// Giving the independent pin `token` back can lead from `(a, s)` to `(b, t)`.
    spec fn drops(a: Self, s: Self::Store, token: u64, b: Self, t: Self::Store) -> bool;

    /// Pins cluster `index`, and has it loaded if need be, without waiting.
    fn acquire(&mut self, store: &mut Self::Store, index: u32, priority: u32) -> (r: Get<Self::Pin>)
        requires
            old(self).wf(old(store)),
        ensures
            final(self).wf(final(store)),
            final(self).clusters() == old(self).clusters(),
            match r {
                Get::Ready(p) => p.spec_index() == index && final(self).live() == old(self).live()
                    + 1,
                Get::Loading(p) => p.spec_index() == index && final(self).live()
                    == old(self).live() + 1,
                Get::Unavailable => final(self).live() == old(self).live(),
            },
            Self::acquires(
                *old(self),
                *old(store),
                index,
                priority,
                r,
                *final(self),
                *final(store),
            ),
    ;

    /// Gives a pin back.
    fn release_pin(&mut self, store: &mut Self::Store, pin: Self::Pin)
        requires
            old(self).wf(old(store)),
        ensures
            final(self).wf(final(store)),
            final(self).clusters() == old(self).clusters(),
            final(self).live() == old(self).live() - 1,
            Self::releases(*old(self), *old(store), pin, *final(self), *final(store)),
    ;

    /// Whether the data behind a pin has been read by now.
    fn is_ready(&mut self, store: &mut Self::Store, pin: &Self::Pin) -> (r: bool)
        requires
            old(self).wf(old(store)),
        ensures
            final(self).wf(final(store)),
            final(self).clusters() == old(self).clusters(),
            final(self).live() == old(self).live(),
            r == old(self).ready(old(store), pin),
            Self::asks(*old(self), *old(store), *pin, *final(self), *final(store)),
            forall|p: Self::Pin| #[trigger]
                final(self).ready(final(store), &p) == old(self).ready(old(store), &p),
            forall|p: Self::Pin| #[trigger]
                final(self).token_of(final(store), &p) == old(self).token_of(old(store), &p),
    ;

    /// The token of an independent pin on the same cluster; 0 if there is none.
    fn token(&mut self, store: &mut Self::Store, pin: &Self::Pin) -> (r: u64)
        requires
            old(self).wf(old(store)),
        ensures
            final(self).wf(final(store)),
            final(self).clusters() == old(self).clusters(),
            final(self).live() == old(self).live(),
            r == old(self).token_of(old(store), pin),
            Self::asks(*old(self), *old(store), *pin, *final(self), *final(store)),
            forall|p: Self::Pin| #[trigger]
                final(self).ready(final(store), &p) == old(self).ready(old(store), &p),
            forall|p: Self::Pin| #[trigger]
                final(self).token_of(final(store), &p) == old(self).token_of(old(store), &p),
    ;

    /// How many clusters the sample has.
    fn num_clusters(&self) -> (r: u32)
        ensures
            r == self.clusters(),
    ;

    /// Takes an independent pin.
    fn retain_token(&mut self, store: &mut Self::Store, token: u64)
        requires
            old(self).wf(old(store)),
        ensures
            final(self).wf(final(store)),
            final(self).clusters() == old(self).clusters(),
            final(self).live() == old(self).live(),
            Self::retains(*old(self), *old(store), token, *final(self), *final(store)),
            forall|p: Self::Pin| #[trigger]
                final(self).ready(final(store), &p) == old(self).ready(old(store), &p),
            forall|p: Self::Pin| #[trigger]
                final(self).token_of(final(store), &p) == old(self).token_of(old(store), &p),
    ;

    /// Gives an independent pin back.
    fn release_token(&mut self, store: &mut Self::Store, token: u64)
        requires
            old(self).wf(old(store)),
        ensures
            final(self).wf(final(store)),
            final(self).clusters() == old(self).clusters(),
            final(self).live() == old(self).live(),
            Self::drops(*old(self), *old(store), token, *final(self), *final(store)),
            forall|p: Self::Pin| #[trigger]
                final(self).ready(final(store), &p) == old(self).ready(old(store), &p),
            forall|p: Self::Pin| #[trigger]
                final(self).token_of(final(store), &p) == old(self).token_of(old(store), &p),
    ;
}

} // verus!
