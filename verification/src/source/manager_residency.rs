//! Clusters made resident by the cache: the residency that voices use.
use crate::fill::native::{reserved_for, Host, StreamView, Streaming};
use crate::resource::facade::{pin_token_of, queued_at, token_gen, token_slot, Backend, Lease};
use crate::resource::leases::{lemma_same_slot, same_places};
use crate::resource::model::{lemma_slot_at, Model};
use crate::source::residency::{Get, RegionPin, Residency};
use vstd::prelude::*;

verus! {

/// The clusters of one asset. A cluster that is resident and ready is pinned; another is
/// reserved and queued for loading, which makes it ready later.
#[verifier::reject_recursive_types(B)]
#[verifier::reject_recursive_types(H)]
pub struct ManagerResidency<B: Backend, H: Host> {
    asset: u32,
    cluster_size: u32,
    num_clusters: u32,
    live: Ghost<int>,
    kind: std::marker::PhantomData<(B, H)>,
}

/// A pin on a cluster: one lease on its chunk.
pub struct ManagerPin {
    lease: Lease,
    index: u32,
}

impl RegionPin for ManagerPin {
    closed spec fn spec_index(&self) -> u32 {
        self.index
    }

    closed spec fn spec_payload(&self) -> usize {
        self.lease@
    }

    fn index(&self) -> (r: u32) {
        self.index
    }

    fn payload(&self) -> (r: usize) {
        self.lease.chunk().as_ptr()
    }
}

impl<B: Backend, H: Host> ManagerResidency<B, H> {
    pub closed spec fn spec_asset(&self) -> u32 {
        self.asset
    }

    pub closed spec fn spec_cluster_size(&self) -> u32 {
        self.cluster_size
    }

    /// The clusters of `asset`, of which there are `num_clusters`.
    pub fn new(asset: u32, cluster_size: u32, num_clusters: u32) -> (r: Self)
        ensures
            r.spec_asset() == asset,
            r.spec_cluster_size() == cluster_size,
            r.clusters() == num_clusters,
            r.live() == 0,
    {
        ManagerResidency {
            asset,
            cluster_size,
            num_clusters,
            live: Ghost(0),
            kind: std::marker::PhantomData,
        }
    }
}

/// `n` is `m` with cluster `index` of `asset` reserved at `p` and queued at `priority`.
#[verifier::opaque]
pub open spec fn reserved_and_queued(
    m: Model,
    data: StreamView,
    asset: u32,
    index: u32,
    cluster_size: u32,
    p: usize,
    priority: u32,
    n: Model,
    new_data: StreamView,
) -> bool {
    exists|b: Model| #[trigger]
        reserved_for(m, data, asset, index, cluster_size, p, b, new_data) && n == queued_at(
            b,
            p,
            priority,
        )
}

/// What pinning cluster `index` of `asset` does to the tables `m`: nothing past the last
/// cluster; a lease if it is resident and ready; otherwise a reservation, queued.
pub open spec fn acquire_rule(
    m: Model,
    data: StreamView,
    asset: u32,
    cluster_size: u32,
    num_clusters: u32,
    index: u32,
    priority: u32,
    r: Get<ManagerPin>,
    n: Model,
    new_data: StreamView,
) -> bool {
    let a = m.try_acquire(asset, index);
    &&& r is Ready ==> r->Ready_0.spec_index() == index
    &&& r is Loading ==> r->Loading_0.spec_index() == index && r->Loading_0.spec_payload() != 0
    &&& if index >= num_clusters {
        r is Unavailable && n == m && new_data == data
    } else if m.try_acquire_result(asset, index) != 0 {
        &&& r is Ready
        &&& r->Ready_0.spec_payload() == m.try_acquire_result(asset, index)
        &&& n == a
        &&& new_data == data
    } else {
        match r {
            Get::Ready(_) => false,
            Get::Loading(pin) => reserved_and_queued(
                a,
                data,
                asset,
                index,
                cluster_size,
                pin.spec_payload(),
                priority,
                n,
                new_data,
            ),
            Get::Unavailable => reserved_for(
                a,
                data,
                asset,
                index,
                cluster_size,
                0,
                n,
                new_data,
            ),
        }
    }
}

/// Where nothing moves, pins are as ready as they were, and their tokens are the same.
pub proof fn lemma_pins_as_before(m: Model, n: Model)
    requires
        same_places(m, n),
        forall|i: int|
            0 <= i < m.chunks.len() ==> (#[trigger] n.chunks[i]).ready == m.chunks[i].ready,
        forall|i: int|
            0 <= i < m.chunks.len() ==> (#[trigger] n.chunks[i]).generation
                == m.chunks[i].generation,
    ensures
        forall|p: usize| #[trigger] n.slot_at(p) == m.slot_at(p),
        forall|p: usize| #[trigger] pin_token_of(n, p) == pin_token_of(m, p),
{
    assert forall|p: usize| #[trigger] n.slot_at(p) == m.slot_at(p) by {
        lemma_same_slot(m, n, p);
        lemma_slot_at(m, p);
    }
    assert forall|p: usize| #[trigger] pin_token_of(n, p) == pin_token_of(m, p) by {
        assert(n.slot_at(p) == m.slot_at(p));
        lemma_slot_at(m, p);
    }
}

impl<B: Backend, H: Host> Residency for ManagerResidency<B, H> {
    type Pin = ManagerPin;

    type Store = Streaming<B, H>;

    open spec fn wf(&self, store: &Streaming<B, H>) -> bool {
        store.wf()
    }

    closed spec fn clusters(&self) -> u32 {
        self.num_clusters
    }

    closed spec fn live(&self) -> int {
        self.live@
    }

    open spec fn ready(&self, store: &Streaming<B, H>, pin: &ManagerPin) -> bool {
        match store.res@.slot_at(pin.spec_payload()) {
            Some(i) => store.res@.chunks[i].ready,
            None => false,
        }
    }

    open spec fn acquires(
        a: Self,
        s: Streaming<B, H>,
        index: u32,
        priority: u32,
        r: Get<ManagerPin>,
        b: Self,
        t: Streaming<B, H>,
    ) -> bool {
        &&& b.spec_asset() == a.spec_asset()
        &&& b.spec_cluster_size() == a.spec_cluster_size()
        &&& b.clusters() == a.clusters()
        &&& acquire_rule(
            s.res@,
            s.data(),
            a.spec_asset(),
            a.spec_cluster_size(),
            a.clusters(),
            index,
            priority,
            r,
            t.res@,
            t.data(),
        )
        &&& t.follows(s)
        &&& t.host == s.host
    }

    open spec fn releases(
        a: Self,
        s: Streaming<B, H>,
        pin: ManagerPin,
        b: Self,
        t: Streaming<B, H>,
    ) -> bool {
        &&& b.spec_asset() == a.spec_asset()
        &&& b.spec_cluster_size() == a.spec_cluster_size()
        &&& b.clusters() == a.clusters()
        &&& t == (Streaming { res: t.res, ..s })
        &&& t.data() == s.data()
        &&& t.res.backend == s.res.backend
        &&& t.res@ == s.res@.release(pin.spec_payload())
    }

    open spec fn asks(
        a: Self,
        s: Streaming<B, H>,
        pin: ManagerPin,
        b: Self,
        t: Streaming<B, H>,
    ) -> bool {
        &&& b == a
        &&& t == (Streaming { res: t.res, ..s })
        &&& t.data() == s.data()
        &&& t.res.backend == s.res.backend
        &&& t.res@ == s.res@.searched_ptr(pin.spec_payload())
    }

    open spec fn retains(
        a: Self,
        s: Streaming<B, H>,
        token: u64,
        b: Self,
        t: Streaming<B, H>,
    ) -> bool {
        &&& b == a
        &&& t == (Streaming { res: t.res, ..s })
        &&& t.data() == s.data()
        &&& t.res.backend == s.res.backend
        &&& t.res@ == (if token == 0 {
            s.res@
        } else {
            s.res@.retain(token_slot(token), token_gen(token))
        })
    }

    open spec fn drops(
        a: Self,
        s: Streaming<B, H>,
        token: u64,
        b: Self,
        t: Streaming<B, H>,
    ) -> bool {
        &&& b == a
        &&& t == (Streaming { res: t.res, ..s })
        &&& t.data() == s.data()
        &&& t.res.backend == s.res.backend
        &&& t.res@ == (if token == 0 {
            s.res@
        } else {
            s.res@.release_slot(token_slot(token), token_gen(token))
        })
    }

    open spec fn token_of(&self, store: &Streaming<B, H>, pin: &ManagerPin) -> u64 {
        pin_token_of(store.res@, pin.spec_payload())
    }

    fn acquire(
        &mut self,
        store: &mut Streaming<B, H>,
        index: u32,
        priority: u32,
    ) -> (r: Get<ManagerPin>)
    {
        proof {
            store.lemma_silent(*old(store));
        }
        if index >= self.num_clusters {
            return Get::Unavailable;
        }
        let ghost m = store.res@;
        match store.res.acquire_leased(self.asset, index) {
            Some(lease) => {
                self.live = Ghost(self.live@ + 1);
                assert(store.res@ == m.try_acquire(self.asset, index));
                return Get::Ready(ManagerPin { lease, index });
            },
            None => {},
        }
        let ghost a = store.res@;
        match store.request(self.asset, index, self.cluster_size) {
            Some(lease) => {
                let ghost b = store.res@;
                let ghost d = store.data();
                assert(reserved_for(
                    a,
                    old(store).data(),
                    self.asset,
                    index,
                    self.cluster_size,
                    lease@,
                    b,
                    d,
                ));
                let slot: u32 = store.res.slot_of(lease.chunk());
                store.res.loader_enqueue(slot, priority);
                self.live = Ghost(self.live@ + 1);
                assert(reserved_and_queued(
                    a,
                    old(store).data(),
                    self.asset,
                    index,
                    self.cluster_size,
                    lease@,
                    priority,
                    store.res@,
                    store.data(),
                )) by {
                    reveal(reserved_and_queued);
                    assert(store.data() == d);
                    assert(store.res@ == queued_at(b, lease@, priority));
                }
                Get::Loading(ManagerPin { lease, index })
            },
            None => Get::Unavailable,
        }
    }

    fn release_pin(&mut self, store: &mut Streaming<B, H>, pin: ManagerPin)
    {
        self.live = Ghost(self.live@ - 1);
        store.res.release_lease(pin.lease);
    }

    fn is_ready(&mut self, store: &mut Streaming<B, H>, pin: &ManagerPin) -> (r: bool)
    {
        store.res.is_ready(pin.lease.chunk())
    }

    fn token(&mut self, store: &mut Streaming<B, H>, pin: &ManagerPin) -> (r: u64)
    {
        store.res.pin_token(pin.lease.chunk())
    }

    fn num_clusters(&self) -> (r: u32) {
        self.num_clusters
    }

    fn retain_token(&mut self, store: &mut Streaming<B, H>, token: u64)
    {
        store.res.retain_token(token);
        proof {
            lemma_pins_as_before(old(store).res@, store.res@);
        }
    }

    fn release_token(&mut self, store: &mut Streaming<B, H>, token: u64)
    {
        store.res.release_token(token);
        proof {
            lemma_pins_as_before(old(store).res@, store.res@);
        }
    }
}

} // verus!
