//! The leases behind a cursor's pins: as long as a cursor holds a pin, its cluster stays
//! where it is.
use crate::fill::native::{reserved_for, Host, StreamView, Streaming};
use crate::reader::leases::{healthy, lemma_reserve, lemma_still_booked, one_more};
use crate::resource::facade::{
    kept_or_evicted, newly_reserved, only_evicted, queued_at, request_outcome, Backend,
};
use crate::resource::index::NONE;
use crate::resource::laws::{lemma_found, lemma_keys_stay, requested_chunks_are_found};
use crate::resource::leases::{
    leases_at, lemma_leases_at, lemma_release_leases, lemma_same_leases, lemma_same_slot,
    lemma_try_acquire_leases, light, quiet,
};
use crate::resource::memory::{lemma_sound_before, one_if, sound};
use crate::resource::model::{lemma_resident, lemma_slot_at, unique_addresses, Model};
use crate::resource::trace::goes_on;
use crate::resource::types::NO_SLOT;
use crate::source::cursor::{
    acquire_steps, acquired, answers, follows, gets, given_back, neighbour, pin_of, pinned,
    prefetch_steps, ready_steps, unpromoted, RegionOut, RegionState, SampleSource,
};
use crate::source::laws::{reads, repeated_acquires_give_the_same_lease};
use crate::source::manager_residency::{
    acquire_rule, reserved_and_queued, ManagerPin, ManagerResidency,
};
use crate::source::residency::{Get, RegionPin, Residency};
use vstd::prelude::*;

verus! {

/// The chunk at `q` is in `n` where it is in `m`, as ready, and has the same token.
pub open spec fn kept(m: Model, n: Model, q: usize) -> bool {
    m.slot_at(q) is Some ==> {
        let i = m.slot_at(q)->0;
        &&& n.slot_at(q) == Some(i)
        &&& n.chunks[i].asset == m.chunks[i].asset
        &&& n.chunks[i].index == m.chunks[i].index
        &&& n.chunks[i].ready == m.chunks[i].ready
        &&& n.chunks[i].generation == m.chunks[i].generation
    }
}

/// What is leased is kept.
pub open spec fn keeps_leased(m: Model, n: Model) -> bool {
    forall|q: usize| leases_at(m, q) >= 1 ==> #[trigger] kept(m, n, q)
}

/// 1 for a slot that pins the chunk at `q`.
pub open spec fn at(q: usize, slot: Option<ManagerPin>) -> int {
    if slot is Some && slot->0.spec_payload() == q {
        1
    } else {
        0
    }
}

/// The pin's chunk is that of its cluster.
pub open spec fn placed(m: Model, asset: u32, slot: Option<ManagerPin>) -> bool {
    slot is Some ==> {
        let p = slot->0.spec_payload();
        &&& m.slot_at(p) is Some
        &&& m.chunks[m.slot_at(p)->0].asset == asset
        &&& m.chunks[m.slot_at(p)->0].index == slot->0.spec_index()
    }
}

/// Each of four pins is on the chunk of its cluster, and each is a lease of its own.
pub open spec fn leased_for(
    m: Model,
    asset: u32,
    w: Option<ManagerPin>,
    x: Option<ManagerPin>,
    y: Option<ManagerPin>,
    z: Option<ManagerPin>,
) -> bool {
    &&& placed(m, asset, w)
    &&& placed(m, asset, x)
    &&& placed(m, asset, y)
    &&& placed(m, asset, z)
    &&& forall|q: usize|
        q != 0 ==> #[trigger] leases_at(m, q) >= at(q, w) + at(q, x) + at(q, y) + at(q, z)
}

/// The tables are in order, with room for `k` leases more on each chunk.
pub open spec fn sturdy(m: Model, data: StreamView, k: int) -> bool {
    &&& healthy(m, data)
    &&& m.unique_keys()
    &&& unique_addresses(m)
    &&& light(m, k)
}

/// Where nothing moves, everything is kept.
proof fn lemma_quiet_keeps(m: Model, n: Model)
    requires
        quiet(m, n),
        forall|i: int|
            0 <= i < m.chunks.len() ==> (#[trigger] n.chunks[i]).generation
                == m.chunks[i].generation,
    ensures
        forall|q: usize| #[trigger] kept(m, n, q),
{
    assert forall|q: usize| #[trigger] kept(m, n, q) by {
        lemma_same_slot(m, n, q);
        lemma_slot_at(m, q);
    }
}

/// A pin whose chunk is kept stays on it.
proof fn lemma_placed(m: Model, n: Model, asset: u32, slot: Option<ManagerPin>)
    requires
        placed(m, asset, slot),
        slot is Some ==> kept(m, n, slot->0.spec_payload()),
    ensures
        placed(n, asset, slot),
{
}

/// Pins stay on their chunks where what is leased is kept.
proof fn lemma_all_placed(
    m: Model,
    n: Model,
    asset: u32,
    w: Option<ManagerPin>,
    x: Option<ManagerPin>,
    y: Option<ManagerPin>,
    z: Option<ManagerPin>,
)
    requires
        leased_for(m, asset, w, x, y, z),
        keeps_leased(m, n),
    ensures
        placed(n, asset, w),
        placed(n, asset, x),
        placed(n, asset, y),
        placed(n, asset, z),
{
    lemma_one_placed(m, n, asset, w, x, y, z);
    lemma_one_placed(m, n, asset, x, w, y, z);
    lemma_one_placed(m, n, asset, y, x, w, z);
    lemma_one_placed(m, n, asset, z, x, y, w);
}

proof fn lemma_one_placed(
    m: Model,
    n: Model,
    asset: u32,
    w: Option<ManagerPin>,
    x: Option<ManagerPin>,
    y: Option<ManagerPin>,
    z: Option<ManagerPin>,
)
    requires
        placed(m, asset, w),
        forall|q: usize|
            q != 0 ==> #[trigger] leases_at(m, q) >= at(q, w) + at(q, x) + at(q, y) + at(q, z),
        keeps_leased(m, n),
    ensures
        placed(n, asset, w),
{
    if w is Some {
        let p = w->0.spec_payload();
        lemma_slot_at(m, p);
        assert(leases_at(m, p) >= 1);
        assert(kept(m, n, p));
    }
}

/// A pin given back.
proof fn lemma_back(
    m: Model,
    data: StreamView,
    asset: u32,
    k: int,
    w: ManagerPin,
    x: Option<ManagerPin>,
    y: Option<ManagerPin>,
    z: Option<ManagerPin>,
)
    requires
        sturdy(m, data, k),
        leased_for(m, asset, Some(w), x, y, z),
    ensures
        sturdy(m.release(w.spec_payload()), data, k),
        leased_for(m.release(w.spec_payload()), asset, None, x, y, z),
        keeps_leased(m, m.release(w.spec_payload())),
{
    let p = w.spec_payload();
    let n = m.release(p);
    lemma_slot_at(m, p);
    assert(leases_at(m, p) >= 1);
    lemma_release_leases(m, p);
    lemma_still_booked(m, n, data);
    lemma_keys_stay(m, n);
    lemma_quiet_keeps(m, n);
    lemma_all_placed(m, n, asset, Some(w), x, y, z);
    assert forall|q: usize| #[trigger] leases_at(n, q) <= u32::MAX - k by {
        assert(leases_at(m, q) <= u32::MAX - k);
        if q != 0 {
            assert(leases_at(n, q) == leases_at(m, q) - one_if(q == p));
        }
    }
    assert forall|q: usize| q != 0 implies #[trigger] leases_at(n, q) >= at(q, None) + at(q, x)
        + at(q, y) + at(q, z) by {
        assert(leases_at(m, q) >= at(q, Some(w)) + at(q, x) + at(q, y) + at(q, z));
        assert(leases_at(n, q) == leases_at(m, q) - one_if(q == p));
    }
}

/// A lookup by address.
proof fn lemma_looked_up(
    m: Model,
    data: StreamView,
    asset: u32,
    k: int,
    p: usize,
    w: Option<ManagerPin>,
    x: Option<ManagerPin>,
    y: Option<ManagerPin>,
    z: Option<ManagerPin>,
)
    requires
        sturdy(m, data, k),
        leased_for(m, asset, w, x, y, z),
    ensures
        sturdy(m.searched_ptr(p), data, k),
        leased_for(m.searched_ptr(p), asset, w, x, y, z),
        keeps_leased(m, m.searched_ptr(p)),
{
    let n = m.searched_ptr(p);
    lemma_same_leases(m, p, 0, 0);
    lemma_still_booked(m, n, data);
    lemma_keys_stay(m, n);
    lemma_quiet_keeps(m, n);
    lemma_all_placed(m, n, asset, w, x, y, z);
    assert forall|q: usize| #[trigger] leases_at(n, q) <= u32::MAX - k by {
        assert(leases_at(m, q) <= u32::MAX - k);
    }
    assert forall|q: usize| q != 0 implies #[trigger] leases_at(n, q) >= at(q, w) + at(q, x) + at(
        q,
        y,
    ) + at(q, z) by {
        assert(leases_at(m, q) == leases_at(n, q));
    }
}

/// What is leased stays through a reservation.
proof fn lemma_reserve_keeps(
    m: Model,
    asset: u32,
    index: u32,
    size: usize,
    p: usize,
    n: Model,
)
    requires
        m.consistent(),
        unique_addresses(m),
        unique_addresses(n),
        request_outcome(m, asset, index, size, p, n),
    ensures
        keeps_leased(m, n),
{
    reveal(request_outcome);
    lemma_resident(m, asset, index);
    assert forall|q: usize| leases_at(m, q) >= 1 implies #[trigger] kept(m, n, q) by {
        lemma_slot_at(m, q);
        let i = m.slot_at(q)->0;
        if m.requestable(asset) && m.resident(asset, index) is None {
            let prot = m.protection(asset);
            if p == 0 {
                let x = m.protecting(prot);
                let y = n.protecting(prot);
                assert(only_evicted(x, y));
                assert(kept_or_evicted(x.chunks[i], y.chunks[i], x.protect));
            } else {
                let k = choose|k: int|
                    #[trigger] newly_reserved(m, n, k, p, asset, index, size, false, prot);
                assert(i != k);
                assert(kept_or_evicted(m.chunks[i], n.chunks[i], prot));
            }
        }
        assert(n.chunks[i].backing == q);
        lemma_leases_at(n, i);
    }
}

/// What is kept in two steps.
proof fn lemma_kept(m: Model, n: Model, o: Model)
    requires
        keeps_leased(m, n),
        keeps_leased(n, o),
        forall|q: usize| q != 0 ==> #[trigger] leases_at(n, q) >= leases_at(m, q),
    ensures
        keeps_leased(m, o),
{
    assert forall|q: usize| leases_at(m, q) >= 1 implies #[trigger] kept(m, o, q) by {
        lemma_slot_at(m, q);
        assert(leases_at(n, q) >= 1);
        assert(kept(m, n, q));
        assert(kept(n, o, q));
    }
}

/// A chunk that is looked up and queued, and all others, stay where they are.
proof fn lemma_queue(m: Model, data: StreamView, k: int, p: usize, priority: u32)
    requires
        sturdy(m, data, k),
    ensures
        sturdy(queued_at(m, p, priority), data, k),
        keeps_leased(m, queued_at(m, p, priority)),
        forall|q: usize|
            q != 0 ==> #[trigger] leases_at(queued_at(m, p, priority), q) == leases_at(m, q),
{
    let t = m.searched_ptr(p);
    let n = queued_at(m, p, priority);
    let slot = match m.slot_at(p) {
        Some(i) => i as u32,
        None => NO_SLOT,
    };
    lemma_same_leases(m, p, 0, 0);
    lemma_same_leases(t, p, slot, priority);
    lemma_still_booked(m, n, data);
    lemma_keys_stay(m, t);
    lemma_keys_stay(t, n);
    lemma_quiet_keeps(m, n);
    assert forall|q: usize| q != 0 implies #[trigger] leases_at(n, q) == leases_at(m, q) by {
        assert(leases_at(t, q) == leases_at(m, q));
    }
    assert forall|q: usize| #[trigger] leases_at(n, q) <= u32::MAX - k by {
        assert(leases_at(m, q) <= u32::MAX - k);
        if q != 0 {
            assert(leases_at(n, q) == leases_at(m, q));
        }
    }
}

/// The ready chunk of a cluster, leased.
proof fn lemma_take(m: Model, data: StreamView, asset: u32, index: u32, k: int)
    requires
        sturdy(m, data, k),
        k >= 1,
    ensures
        ({
            let n = m.try_acquire(asset, index);
            let p = m.try_acquire_result(asset, index);
            &&& sturdy(n, data, k - 1)
            &&& p == 0 ==> light(n, k)
            &&& keeps_leased(m, n)
            &&& forall|q: usize|
                q != 0 ==> #[trigger] leases_at(n, q) == leases_at(m, q) + one_if(q == p)
            &&& p != 0 ==> {
                &&& n.slot_at(p) is Some
                &&& n.chunks[n.slot_at(p)->0].holds(asset, index)
                &&& n.chunks[n.slot_at(p)->0].ready
            }
        }),
{
    let n = m.try_acquire(asset, index);
    let p = m.try_acquire_result(asset, index);
    assert(light(m, 1)) by {
        assert forall|q: usize| #[trigger] leases_at(m, q) <= u32::MAX - 1 by {
            assert(leases_at(m, q) <= u32::MAX - k);
        }
    }
    lemma_try_acquire_leases(m, asset, index);
    lemma_resident(m, asset, index);
    lemma_still_booked(m, n, data);
    lemma_keys_stay(m, n);
    lemma_quiet_keeps(m, n);
    assert forall|q: usize| #[trigger] leases_at(n, q) <= u32::MAX - (k - 1) by {
        assert(leases_at(m, q) <= u32::MAX - k);
        if q != 0 {
            assert(leases_at(n, q) == leases_at(m, q) + one_if(q == p));
        }
    }
    if p == 0 {
        assert forall|q: usize| #[trigger] leases_at(n, q) <= u32::MAX - k by {
            assert(leases_at(m, q) <= u32::MAX - k);
            if q != 0 {
                assert(leases_at(n, q) == leases_at(m, q) + one_if(q == p));
            }
        }
    } else {
        let i = m.resident(asset, index)->0;
        lemma_leases_at(m, i);
        assert(kept(m, n, p));
    }
}

/// A cluster reserved: what is leased stays, and one lease is taken on the chunk that is
/// given, which is that of the cluster.
proof fn lemma_reserved(
    m: Model,
    data: StreamView,
    asset: u32,
    index: u32,
    cluster_size: u32,
    p: usize,
    n: Model,
    new_data: StreamView,
    k: int,
)
    requires
        sturdy(m, data, k),
        k >= 1,
        reserved_for(m, data, asset, index, cluster_size, p, n, new_data),
        sound(new_data.memory),
    ensures
        sturdy(n, new_data, k - 1),
        keeps_leased(m, n),
        one_more(m, n, p),
        p != 0 ==> n.slot_at(p) is Some && n.chunks[n.slot_at(p)->0].holds(asset, index),
{
    assert(light(m, 1)) by {
        assert forall|q: usize| #[trigger] leases_at(m, q) <= u32::MAX - 1 by {
            assert(leases_at(m, q) <= u32::MAX - k);
        }
    }
    lemma_reserve(m, data, asset, index, cluster_size, p, n, new_data);
    lemma_reserve_keeps(m, asset, index, cluster_size as usize, p, n);
    requested_chunks_are_found(m, asset, index, cluster_size as usize, p, n);
    if p != 0 {
        lemma_resident(n, asset, index);
        lemma_leases_at(n, n.resident(asset, index)->0);
    }
    assert forall|q: usize| #[trigger] leases_at(n, q) <= u32::MAX - (k - 1) by {
        assert(leases_at(m, q) <= u32::MAX - k);
        if q != 0 {
            assert(leases_at(n, q) == leases_at(m, q) + one_if(q == p));
        }
    }
}

/// A cluster asked for: what is leased stays, and the pin that comes with the answer is a
/// lease of its own on the cluster's chunk, which is ready if the answer says so.
proof fn lemma_get(
    m: Model,
    data: StreamView,
    asset: u32,
    cluster_size: u32,
    num_clusters: u32,
    index: u32,
    priority: u32,
    g: Get<ManagerPin>,
    n: Model,
    new_data: StreamView,
    k: int,
    x: Option<ManagerPin>,
    y: Option<ManagerPin>,
    z: Option<ManagerPin>,
)
    requires
        sturdy(m, data, k),
        k >= 1,
        leased_for(m, asset, None, x, y, z),
        acquire_rule(
            m,
            data,
            asset,
            cluster_size,
            num_clusters,
            index,
            priority,
            g,
            n,
            new_data,
        ),
        pin_of(g) is Some ==> pin_of(g)->0.spec_payload() != 0,
        sound(new_data.memory),
    ensures
        sturdy(n, new_data, k - 1),
        leased_for(n, asset, pin_of(g), x, y, z),
        keeps_leased(m, n),
        g is Ready ==> n.chunks[n.slot_at(g->Ready_0.spec_payload())->0].ready,
{
    let a = m.try_acquire(asset, index);
    let p = match pin_of(g) {
        Some(pin) => pin.spec_payload(),
        None => 0,
    };
    if index >= num_clusters {
        assert forall|q: usize| #[trigger] leases_at(n, q) <= u32::MAX - (k - 1) by {
            assert(leases_at(m, q) <= u32::MAX - k);
        }
        lemma_same_keeps(m);
    } else {
        lemma_take(m, data, asset, index, k);
        if m.try_acquire_result(asset, index) == 0 {
            match g {
                Get::Ready(_) => {},
                Get::Loading(_) => {
                    reveal(reserved_and_queued);
                    let b = choose|b: Model| #[trigger]
                        reserved_for(a, data, asset, index, cluster_size, p, b, new_data) && n
                            == queued_at(b, p, priority);
                    lemma_reserved(a, data, asset, index, cluster_size, p, b, new_data, k);
                    lemma_queue(b, new_data, k - 1, p, priority);
                    lemma_slot_at(b, p);
                    assert forall|q: usize| q != 0 implies #[trigger] leases_at(n, q) == leases_at(
                        m,
                        q,
                    ) + one_if(q == p) by {
                        assert(leases_at(b, q) == leases_at(a, q) + one_if(q == p));
                        assert(leases_at(a, q) == leases_at(m, q) + one_if(q == 0));
                    }
                    assert forall|q: usize| q != 0 implies #[trigger] leases_at(a, q) >= leases_at(
                        m,
                        q,
                    ) by {}
                    assert forall|q: usize| q != 0 implies #[trigger] leases_at(b, q) >= leases_at(
                        m,
                        q,
                    ) by {
                        assert(leases_at(b, q) == leases_at(a, q) + one_if(q == p));
                    }
                    lemma_kept(m, a, b);
                    lemma_kept(m, b, n);
                    assert(leases_at(b, p) >= 1) by {
                        assert(leases_at(b, p) == leases_at(a, p) + one_if(p == p));
                    }
                    assert(kept(b, n, p));
                },
                Get::Unavailable => {
                    lemma_reserved(a, data, asset, index, cluster_size, 0, n, new_data, k);
                    assert forall|q: usize| q != 0 implies #[trigger] leases_at(n, q) == leases_at(
                        m,
                        q,
                    ) + one_if(q == p) by {
                        assert(leases_at(n, q) == leases_at(a, q) + one_if(q == 0));
                        assert(leases_at(a, q) == leases_at(m, q) + one_if(q == 0));
                    }
                    assert forall|q: usize| q != 0 implies #[trigger] leases_at(a, q) >= leases_at(
                        m,
                        q,
                    ) by {}
                    lemma_kept(m, a, n);
                },
            }
        }
    }
    assert forall|q: usize| q != 0 implies #[trigger] leases_at(n, q) == leases_at(m, q) + one_if(
        q == p,
    ) by {}
    lemma_all_placed(m, n, asset, None, x, y, z);
    assert forall|q: usize| q != 0 implies #[trigger] leases_at(n, q) >= at(q, pin_of(g)) + at(q, x)
        + at(q, y) + at(q, z) by {
        assert(leases_at(m, q) >= at(q, None) + at(q, x) + at(q, y) + at(q, z));
    }
}

/// Where nothing happens, everything is kept.
proof fn lemma_same_keeps(m: Model)
    ensures
        keeps_leased(m, m),
{
}

// ---- a call of a cursor ----

/// Each pin that the cursor `a` holds is a lease of its own on the chunk of its cluster.
pub open spec fn pins_in_place<B: Backend, H: Host>(
    a: SampleSource<ManagerResidency<B, H>>,
    s: Streaming<B, H>,
) -> bool {
    leased_for(
        s.res@,
        a.spec_residency().spec_asset(),
        None,
        a.spec_current(),
        a.spec_pending(),
        a.spec_prefetch(),
    )
}

/// The tables and the memory of `s` are in order, with room for `k` leases more.
pub open spec fn sturdy_store<B: Backend, H: Host>(s: Streaming<B, H>, k: int) -> bool {
    sturdy(s.res@, s.data(), k)
}

/// The neighbour prefetched: `current`, if there is one, stays in place.
proof fn lemma_prefetching<B: Backend, H: Host>(
    x: (ManagerResidency<B, H>, Streaming<B, H>),
    before: Option<ManagerPin>,
    next: Option<u32>,
    priority: u32,
    after: Option<ManagerPin>,
    y: (ManagerResidency<B, H>, Streaming<B, H>),
    current: Option<ManagerPin>,
    k: int,
)
    requires
        k >= 1,
        sturdy_store(x.1, k),
        leased_for(x.1.res@, x.0.spec_asset(), None, current, None, before),
        prefetch_steps::<ManagerResidency<B, H>>(x, before, next, priority, after, y),
        sound(y.1.data().memory),
    ensures
        sturdy_store(y.1, k - 1),
        leased_for(y.1.res@, x.0.spec_asset(), None, current, None, after),
        current is Some ==> kept(x.1.res@, y.1.res@, current->0.spec_payload()),
        y.0.spec_asset() == x.0.spec_asset(),
        goes_on(x.1.data().memory, y.1.data().memory),
{
    let m = x.1.res@;
    let asset = x.0.spec_asset();
    if next is None || next->0 >= x.0.clusters() || pinned(before) == next {
        assert forall|q: usize| #[trigger] leases_at(m, q) <= u32::MAX - (k - 1) by {
            assert(leases_at(m, q) <= u32::MAX - k);
        }
        let h = x.1.data().memory;
        assert(h.take(h.len() as int) =~= h);
    } else {
        let (mid, g) = choose|mid: (ManagerResidency<B, H>, Streaming<B, H>), g: Get<ManagerPin>|
            {
                &&& #[trigger] given_back::<ManagerResidency<B, H>>(x, before, mid)
                &&& #[trigger] gets::<ManagerResidency<B, H>>(mid, next->0, priority, g, y)
                &&& after == pin_of(g)
            };
        let n = mid.1.res@;
        if before is Some {
            lemma_back(m, x.1.data(), asset, k, before->0, None, current, None);
        }
        assert(sturdy_store(mid.1, k));
        assert(leased_for(n, asset, None, current, None, None));
        assert(keeps_leased(m, n)) by {
            lemma_same_keeps(m);
        }
        assert(acquire_rule(
            n,
            mid.1.data(),
            asset,
            mid.0.spec_cluster_size(),
            mid.0.clusters(),
            next->0,
            priority,
            g,
            y.1.res@,
            y.1.data(),
        ));
        lemma_get(
            n,
            mid.1.data(),
            asset,
            mid.0.spec_cluster_size(),
            mid.0.clusters(),
            next->0,
            priority,
            g,
            y.1.res@,
            y.1.data(),
            k,
            current,
            None,
            None,
        );
        if current is Some {
            let q = current->0.spec_payload();
            lemma_slot_at(m, q);
            assert(leases_at(m, q) >= 1);
            assert(leases_at(n, q) >= 1);
            assert(kept(m, n, q));
            assert(kept(n, y.1.res@, q));
        }
        assert(leased_for(y.1.res@, asset, None, current, None, after));
    }
}

/// The answer to a call, and `pending` given back.
proof fn lemma_answered<B: Backend, H: Host>(
    a: SampleSource<ManagerResidency<B, H>>,
    s: Streaming<B, H>,
    index: u32,
    priority: u32,
    g: Get<ManagerPin>,
    x1: (ManagerResidency<B, H>, Streaming<B, H>),
    x2: (ManagerResidency<B, H>, Streaming<B, H>),
    k: int,
)
    requires
        k >= 1,
        sturdy_store(s, k),
        pins_in_place(a, s),
        answers(a, s, index, priority, g, x1),
        given_back::<ManagerResidency<B, H>>(x1, a.spec_pending(), x2),
        sound(x1.1.data().memory),
    ensures
        sturdy_store(x2.1, k - 1),
        ({
            let asset = a.spec_residency().spec_asset();
            let left = unpromoted::<ManagerResidency<B, H>>(a.spec_prefetch(), index);
            &&& leased_for(x2.1.res@, asset, pin_of(g), a.spec_current(), None, left)
            &&& g is Ready ==> x2.1.res@.chunks[x2.1.res@.slot_at(
                g->Ready_0.spec_payload(),
            )->0].ready && g->Ready_0.spec_index() == index
            &&& x2.0.spec_asset() == asset
            &&& x2.0.clusters() == a.spec_residency().clusters()
        }),
        x2.1.data() == x1.1.data(),
{
    let asset = a.spec_residency().spec_asset();
    let m = s.res@;
    let n = x1.1.res@;
    let left = unpromoted::<ManagerResidency<B, H>>(a.spec_prefetch(), index);
    let cur = a.spec_current();
    let pend = a.spec_pending();
    if pinned(a.spec_prefetch()) == Some(index) {
        let pin = a.spec_prefetch()->0;
        let p = pin.spec_payload();
        lemma_looked_up(m, s.data(), asset, k, p, None, cur, pend, a.spec_prefetch());
        assert forall|q: usize| #[trigger] leases_at(n, q) <= u32::MAX - (k - 1) by {
            assert(leases_at(n, q) <= u32::MAX - k);
        }
        lemma_slot_at(m, p);
        assert(leases_at(m, p) >= 1);
        assert(kept(m, n, p));
    } else {
        lemma_get(
            m,
            s.data(),
            asset,
            a.spec_residency().spec_cluster_size(),
            a.spec_residency().clusters(),
            index,
            priority,
            g,
            n,
            x1.1.data(),
            k,
            cur,
            pend,
            left,
        );
    }
    assert(leased_for(n, asset, pin_of(g), cur, pend, left));
    assert(leased_for(n, asset, pend, pin_of(g), cur, left));
    if pend is Some {
        lemma_back(n, x1.1.data(), asset, k - 1, pend->0, pin_of(g), cur, left);
        if g is Ready {
            let p = g->Ready_0.spec_payload();
            lemma_slot_at(n, p);
            assert(leases_at(n, p) >= 1);
            assert(kept(n, x2.1.res@, p));
        }
    }
}

/// Acquiring a cluster leaves each pin of the cursor on the chunk of its cluster, under a
/// lease of its own. What a call gives as ready the cursor then reads: it is ready where the
/// call says, under the token that it gave, whatever was evicted for the neighbour.
pub proof fn acquiring_keeps_pins_in_place<B: Backend, H: Host>(
    a: SampleSource<ManagerResidency<B, H>>,
    s: Streaming<B, H>,
    index: u32,
    direction: i8,
    priority: u32,
    r: (RegionState, Option<RegionOut>),
    b: SampleSource<ManagerResidency<B, H>>,
    t: Streaming<B, H>,
    k: int,
)
    requires
        k >= 2,
        sturdy_store(s, k),
        pins_in_place(a, s),
        a.spec_residency().spec_asset() != NONE,
        sound(t.data().memory),
        acquired(a, s, index, direction, r, b),
        acquire_steps(a, s, index, direction, priority, r, b, t),
    ensures
        sturdy_store(t, k - 2),
        pins_in_place(b, t),
        r.0 == RegionState::Ready && direction != 0 && a.distinct() && index
            < a.spec_residency().clusters() ==> reads(b, t, r.1->0),
{
    let asset = a.spec_residency().spec_asset();
    reveal(acquire_steps);
    let (g, x1, x2) = choose|
        g: Get<ManagerPin>,
        x1: (ManagerResidency<B, H>, Streaming<B, H>),
        x2: (ManagerResidency<B, H>, Streaming<B, H>),
    |
        {
            &&& #[trigger] answers(a, s, index, priority, g, x1)
            &&& #[trigger] given_back::<ManagerResidency<B, H>>(x1, a.spec_pending(), x2)
            &&& follows(a, index, direction, priority, g, x2, r, b, t)
        };
    let left = unpromoted::<ManagerResidency<B, H>>(a.spec_prefetch(), index);
    match g {
        Get::Ready(pin) => {
            let (x3, x4) = choose|
                x3: (ManagerResidency<B, H>, Streaming<B, H>),
                x4: (ManagerResidency<B, H>, Streaming<B, H>),
            | #[trigger]
                ready_steps(a, index, direction, priority, pin, r.1->0, x2, x3, x4, b, t);
            lemma_ready_call(a, s, index, direction, priority, pin, r, x1, x2, x3, x4, b, t, k);
        },
        _ => {
            assert(x2.1 == t);
            assert(x1.1.data().memory == t.data().memory);
            lemma_answered(a, s, index, priority, g, x1, x2, k);
            assert forall|q: usize| #[trigger] leases_at(t.res@, q) <= u32::MAX - (k - 2) by {
                assert(leases_at(t.res@, q) <= u32::MAX - (k - 1));
            }
        },
    }
}

/// The same, of an answer that the cluster is ready.
proof fn lemma_ready_call<B: Backend, H: Host>(
    a: SampleSource<ManagerResidency<B, H>>,
    s: Streaming<B, H>,
    index: u32,
    direction: i8,
    priority: u32,
    pin: ManagerPin,
    r: (RegionState, Option<RegionOut>),
    x1: (ManagerResidency<B, H>, Streaming<B, H>),
    x2: (ManagerResidency<B, H>, Streaming<B, H>),
    x3: (ManagerResidency<B, H>, Streaming<B, H>),
    x4: (ManagerResidency<B, H>, Streaming<B, H>),
    b: SampleSource<ManagerResidency<B, H>>,
    t: Streaming<B, H>,
    k: int,
)
    requires
        k >= 2,
        sturdy_store(s, k),
        pins_in_place(a, s),
        a.spec_residency().spec_asset() != NONE,
        sound(t.data().memory),
        acquired(a, s, index, direction, r, b),
        r.0 == RegionState::Ready,
        r.1 is Some,
        answers(a, s, index, priority, Get::Ready(pin), x1),
        given_back::<ManagerResidency<B, H>>(x1, a.spec_pending(), x2),
        ready_steps(a, index, direction, priority, pin, r.1->0, x2, x3, x4, b, t),
    ensures
        sturdy_store(t, k - 2),
        pins_in_place(b, t),
        direction != 0 && a.distinct() && index < a.spec_residency().clusters() ==> reads(
            b,
            t,
            r.1->0,
        ),
{
    let asset = a.spec_residency().spec_asset();
    let left = unpromoted::<ManagerResidency<B, H>>(a.spec_prefetch(), index);
    let y = (b.spec_residency(), t);
    let p = pin.spec_payload();
    let out = r.1->0;
    lemma_memory_goes_on::<B, H>(
        x4,
        left,
        neighbour(index, direction),
        priority,
        b.spec_prefetch(),
        y,
    );
    assert(x1.1.data().memory == x4.1.data().memory);
    lemma_sound_before(x1.1.data().memory, t.data().memory);
    lemma_answered(a, s, index, priority, Get::Ready(pin), x1, x2, k);
    let m2 = x2.1.res@;
    let m3 = x3.1.res@;
    let m4 = x4.1.res@;
    let cur = a.spec_current();
    lemma_slot_at(m2, p);
    lemma_looked_up(m2, x2.1.data(), asset, k - 1, p, Some(pin), cur, None, left);
    assert(leases_at(m2, p) >= 1);
    assert(kept(m2, m3, p));
    assert(leases_at(m3, p) >= 1);
    if pinned(cur) == Some(index) {
        // Both pins are on the one chunk of the cluster.
        let i = m3.slot_at(p)->0;
        let j = m3.slot_at(cur->0.spec_payload())->0;
        lemma_slot_at(m3, p);
        lemma_slot_at(m3, cur->0.spec_payload());
        assert(m3.keyed(i));
        assert(m3.chunks[j].holds(m3.chunks[i].asset, m3.chunks[i].index));
        assert(cur->0.spec_payload() == p);
        lemma_back(m3, x3.1.data(), asset, k - 1, pin, cur, None, left);
    } else if cur is Some {
        assert(leased_for(m3, asset, cur, Some(pin), None, left));
        lemma_back(m3, x3.1.data(), asset, k - 1, cur->0, Some(pin), None, left);
    }
    assert(keeps_leased(m3, m4)) by {
        lemma_same_keeps(m3);
    }
    assert(kept(m3, m4, p));
    let now = b.spec_current();
    assert(leased_for(m4, asset, None, now, None, left));
    assert(now is Some && now->0.spec_payload() == p);
    lemma_prefetching::<B, H>(
        x4,
        left,
        neighbour(index, direction),
        priority,
        b.spec_prefetch(),
        y,
        now,
        k - 1,
    );
    assert(kept(m4, t.res@, p));
    let i = m2.slot_at(p)->0;
    lemma_slot_at(t.res@, p);
    assert(t.res@.chunks[i].holds(asset, index));
    lemma_found(t.res@, i, asset, index);
}

/// Prefetching forgets nothing that was asked.
proof fn lemma_memory_goes_on<B: Backend, H: Host>(
    x: (ManagerResidency<B, H>, Streaming<B, H>),
    before: Option<ManagerPin>,
    next: Option<u32>,
    priority: u32,
    after: Option<ManagerPin>,
    y: (ManagerResidency<B, H>, Streaming<B, H>),
)
    requires
        prefetch_steps::<ManagerResidency<B, H>>(x, before, next, priority, after, y),
    ensures
        goes_on(x.1.data().memory, y.1.data().memory),
{
    let h = x.1.data().memory;
    if next is None || next->0 >= x.0.clusters() || pinned(before) == next {
        assert(h.take(h.len() as int) =~= h);
    } else {
        let (mid, g) = choose|mid: (ManagerResidency<B, H>, Streaming<B, H>), g: Get<ManagerPin>|
            {
                &&& #[trigger] given_back::<ManagerResidency<B, H>>(x, before, mid)
                &&& #[trigger] gets::<ManagerResidency<B, H>>(mid, next->0, priority, g, y)
                &&& after == pin_of(g)
            };
        assert(y.1.follows(mid.1));
        assert(mid.1.data().memory == h);
    }
}

/// Acquiring a cluster that the call before gave as ready gives the same region again, under
/// the same lease, if its neighbour is prefetched or out of range by then. No pin is left
/// over, the neighbour stays prefetched, and every chunk is leased as often as before.
pub proof fn acquiring_twice_gives_the_same_lease<B: Backend, H: Host>(
    a: SampleSource<ManagerResidency<B, H>>,
    s: Streaming<B, H>,
    index: u32,
    direction: i8,
    priority: u32,
    first: (RegionState, Option<RegionOut>),
    b: SampleSource<ManagerResidency<B, H>>,
    t: Streaming<B, H>,
    second: (RegionState, Option<RegionOut>),
    c: SampleSource<ManagerResidency<B, H>>,
    u: Streaming<B, H>,
)
    requires
        sturdy_store(s, 3),
        pins_in_place(a, s),
        a.distinct(),
        a.spec_residency().spec_asset() != NONE,
        index < a.spec_residency().clusters(),
        direction != 0,
        sound(t.data().memory),
        t.wf(),
        acquired(a, s, index, direction, first, b),
        acquire_steps(a, s, index, direction, priority, first, b, t),
        first.0 == RegionState::Ready,
        ({
            let next = neighbour(index, direction);
            ||| next is None
            ||| next->0 >= b.spec_residency().clusters()
            ||| pinned(b.spec_prefetch()) == next
        }),
        acquired(b, t, index, direction, second, c),
        acquire_steps(b, t, index, direction, priority, second, c, u),
    ensures
        second == first,
        c.spec_current() == b.spec_current(),
        c.spec_pending() is None,
        c.spec_prefetch() == b.spec_prefetch(),
        c.spec_residency().live() == b.spec_residency().live(),
        forall|q: usize| q != 0 ==> #[trigger] leases_at(u.res@, q) == leases_at(t.res@, q),
{
    acquiring_keeps_pins_in_place(a, s, index, direction, priority, first, b, t, 3);
    repeated_acquires_give_the_same_lease(
        b,
        t,
        first.1->0,
        direction,
        priority,
        second,
        c,
        u,
    );
}

} // verus!
