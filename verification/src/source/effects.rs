//! What a cursor is for: which clusters its slots hold after a call, what it prefetches, and how
//! urgently its clusters are loaded.
use crate::fill::native::{reserved_for, Host, StreamView, Streaming};
use crate::resource::effects::{
    backs_first, chunks_are_found_by_key, leased_and_used, leasing_makes_most_recent,
    queueing_by_address, waits,
};
use crate::resource::facade::{queued_at, Backend};
use crate::resource::model::{lemma_resident, Model};
use crate::source::cursor::{
    acquire_steps, acquired, answers, follows, gets, given_back, neighbour, pin_of, pinned,
    ready_steps, unpromoted, RegionOut, RegionState, SampleSource,
};
use crate::source::manager_residency::{
    acquire_rule, reserved_and_queued, ManagerPin, ManagerResidency,
};
use crate::source::residency::{Get, RegionPin, Residency};
use vstd::prelude::*;

verus! {

/// The neighbour of a cluster is the next one in the direction of play, where there is one.
pub proof fn neighbours_are_next_to_each_other(index: u32, direction: i8, n: u32)
    ensures
        neighbour(index, direction) == Some(n) <==> n == index + direction,
        neighbour(index, direction) is None <==> index + direction < 0 || index + direction
            > u32::MAX,
{
}

/// What a cursor says of a cluster: the one it reads is ready; one that it waits for or has
/// prefetched is ready if its data has come, and loading if not; of any other it knows nothing.
pub proof fn cursors_know_what_they_hold<R: Residency>(
    a: SampleSource<R>,
    s: R::Store,
    index: u32,
)
    ensures
        a.spec_current() is Some && a.spec_current()->0.spec_index() == index ==> a.state_of(
            &s,
            index,
        ) == RegionState::Ready,
        a.distinct() && a.spec_pending() is Some && a.spec_pending()->0.spec_index() == index
            ==> a.state_of(&s, index) == (if a.spec_residency().ready(&s, &a.spec_pending()->0) {
            RegionState::Ready
        } else {
            RegionState::Loading
        }),
        a.distinct() && a.spec_prefetch() is Some && a.spec_prefetch()->0.spec_index() == index
            ==> a.state_of(&s, index) == (if a.spec_residency().ready(&s, &a.spec_prefetch()->0) {
            RegionState::Ready
        } else {
            RegionState::Loading
        }),
        a.state_of(&s, index) == RegionState::Unavailable <==> (a.spec_current() is None
            || a.spec_current()->0.spec_index() != index) && (a.spec_pending() is None
            || a.spec_pending()->0.spec_index() != index) && (a.spec_prefetch() is None
            || a.spec_prefetch()->0.spec_index() != index),
{
}

/// What acquiring a cluster does to a cursor. One that is ready becomes the one it reads, and the
/// region tells its index, its address and how much of it is audio; nothing is waited for then.
/// One that is loading is waited for, and the cursor reads on where it was. One that cannot be
/// had is not waited for, and neither is what was.
pub proof fn acquiring_moves_the_cursor<R: Residency>(
    a: SampleSource<R>,
    s: R::Store,
    index: u32,
    direction: i8,
    priority: u32,
    r: (RegionState, Option<RegionOut>),
    b: SampleSource<R>,
    t: R::Store,
)
    requires
        acquired(a, s, index, direction, r, b),
        acquire_steps(a, s, index, direction, priority, r, b, t),
    ensures
        b.spec_geo() == a.spec_geo(),
        r.0 == RegionState::Ready <==> r.1 is Some,
        r.0 == RegionState::Ready ==> {
            &&& b.spec_current() is Some
            &&& b.spec_current()->0.spec_index() == index
            &&& b.spec_pending() is None
            &&& r.1->0.region_index == index
            &&& r.1->0.resident_bytes == a.spec_geo().resident(index as int)
            &&& a.spec_current() is None || a.spec_current()->0.spec_index() != index
                ==> r.1->0.payload_base == b.spec_current()->0.spec_payload()
        },
        r.0 == RegionState::Loading ==> {
            &&& b.spec_current() == a.spec_current()
            &&& b.spec_pending() is Some
            &&& b.spec_pending()->0.spec_index() == index
            &&& b.spec_prefetch() is Some ==> b.spec_prefetch() == a.spec_prefetch()
        },
        r.0 == RegionState::Unavailable ==> {
            &&& b.spec_current() == a.spec_current()
            &&& b.spec_pending() is None
            &&& b.spec_prefetch() == a.spec_prefetch()
        },
        a.spec_prefetch() is Some && a.spec_prefetch()->0.spec_index() == index ==> (r.0
            == RegionState::Ready <==> a.spec_residency().ready(&s, &a.spec_prefetch()->0)) && r.0
            != RegionState::Unavailable,
{
}

/// When a cluster is ready its neighbour in the direction of play is asked for, as urgently as
/// the cluster itself, unless it is out of range or prefetched already; and what comes of that
/// is what the cursor has prefetched.
pub proof fn ready_calls_prefetch_the_neighbour<R: Residency>(
    a: SampleSource<R>,
    s: R::Store,
    index: u32,
    direction: i8,
    priority: u32,
    r: (RegionState, Option<RegionOut>),
    b: SampleSource<R>,
    t: R::Store,
    next: u32,
) -> (w: ((R, R::Store), Get<R::Pin>, (R, R::Store)))
    requires
        acquired(a, s, index, direction, r, b),
        acquire_steps(a, s, index, direction, priority, r, b, t),
        r.0 == RegionState::Ready,
        next == index + direction,
    ensures
        a.spec_prefetch() is Some && a.spec_prefetch()->0.spec_index() == next && next != index
            ==> b.spec_prefetch() == a.spec_prefetch(),
        (a.spec_prefetch() is None || a.spec_prefetch()->0.spec_index() != next || next == index)
            && next < w.2.0.clusters() ==> gets::<R>(
            w.0,
            next,
            priority,
            w.1,
            (b.spec_residency(), t),
        ) && b.spec_prefetch() == pin_of(w.1),
        next >= w.2.0.clusters() && (a.spec_prefetch() is None
            || a.spec_prefetch()->0.spec_index() != index) ==> b.spec_prefetch()
            == a.spec_prefetch(),
{
    reveal(acquire_steps);
    let (g, x1, x2) = choose|g: Get<R::Pin>, x1: (R, R::Store), x2: (R, R::Store)|
        {
            &&& #[trigger] answers(a, s, index, priority, g, x1)
            &&& #[trigger] given_back::<R>(x1, a.spec_pending(), x2)
            &&& follows(a, index, direction, priority, g, x2, r, b, t)
        };
    let pin = g->Ready_0;
    let (x3, x4) = choose|x3: (R, R::Store), x4: (R, R::Store)| #[trigger]
        ready_steps(a, index, direction, priority, pin, r.1->0, x2, x3, x4, b, t);
    let kept = unpromoted::<R>(a.spec_prefetch(), index);
    let y = (b.spec_residency(), t);
    if next >= x4.0.clusters() || pinned(kept) == Some(next) {
        (x4, g, x4)
    } else {
        let (mid, h) = choose|mid: (R, R::Store), h: Get<R::Pin>|
            {
                &&& #[trigger] given_back::<R>(x4, kept, mid)
                &&& #[trigger] gets::<R>(mid, next, priority, h, y)
                &&& b.spec_prefetch() == pin_of(h)
            };
        (mid, h, x4)
    }
}

/// What the cache answers a cursor: a cluster past the last is not to be had, and nothing
/// changes; one that is resident and ready is leased where it is; any other is never said to be
/// ready.
pub proof fn the_cache_gives_what_is_ready(
    m: Model,
    data: StreamView,
    asset: u32,
    cluster_size: u32,
    num_clusters: u32,
    index: u32,
    priority: u32,
    g: Get<ManagerPin>,
    n: Model,
    new_data: StreamView,
    i: int,
)
    requires
        m.consistent(),
        m.unique_keys(),
        asset != u32::MAX,
        acquire_rule(
            m,
            data,
            asset,
            cluster_size,
            num_clusters,
            index,
            priority,
            g,
            n,
            new_data,
        ),
    ensures
        index >= num_clusters ==> g is Unavailable && n == m && new_data == data,
        index < num_clusters && 0 <= i < m.chunks.len() && m.chunks[i].backing != 0
            && m.chunks[i].asset == asset && m.chunks[i].index == index && m.chunks[i].ready ==> g
            is Ready && g->Ready_0.spec_payload() == m.chunks[i].backing && leased_and_used(m, n, i)
            && new_data == data,
        g is Ready ==> exists|k: int|
            0 <= k < m.chunks.len() && (#[trigger] m.chunks[k]).ready && m.chunks[k].asset == asset
                && m.chunks[k].index == index && m.chunks[k].backing == g->Ready_0.spec_payload(),
        g is Ready ==> g->Ready_0.spec_index() == index,
        g is Loading ==> g->Loading_0.spec_index() == index && g->Loading_0.spec_payload() != 0,
{
    lemma_resident(m, asset, index);
    if 0 <= i < m.chunks.len() && m.chunks[i].backing != 0 && m.chunks[i].asset == asset
        && m.chunks[i].index == index {
        chunks_are_found_by_key(m, asset, index, i);
        leasing_makes_most_recent(m, i, 0, n);
    }
    if g is Ready {
        assert(m.chunks[m.resident(asset, index)->0].ready);
    }
}

/// A cluster that a cursor has to wait for waits for the loader at the urgency that the cursor
/// named.
pub proof fn awaited_clusters_wait_at_the_cursors_urgency(
    m: Model,
    data: StreamView,
    asset: u32,
    cluster_size: u32,
    num_clusters: u32,
    index: u32,
    priority: u32,
    g: Get<ManagerPin>,
    n: Model,
    new_data: StreamView,
    k: int,
)
    requires
        acquire_rule(
            m,
            data,
            asset,
            cluster_size,
            num_clusters,
            index,
            priority,
            g,
            n,
            new_data,
        ),
        g is Loading,
        backs_first(n, g->Loading_0.spec_payload(), k),
    ensures
        waits(n, k, priority),
{
    reveal(reserved_and_queued);
    let p = g->Loading_0.spec_payload();
    let b = choose|b: Model| #[trigger]
        reserved_for(
            m.try_acquire(asset, index),
            data,
            asset,
            index,
            cluster_size,
            p,
            b,
            new_data,
        ) && n == queued_at(b, p, priority);
    assert forall|j: int| 0 <= j < b.chunks.len() implies (#[trigger] b.chunks[j]).backing
        == n.chunks[j].backing by {}
    assert(backs_first(b, p, k)) by {
        assert forall|j: int| 0 <= j < k implies (#[trigger] b.chunks[j]).backing != p by {
            assert(n.chunks[j].backing != p);
        }
    }
    queueing_by_address(b, p, k, priority);
}

/// A cursor's urgency is the one at which the cluster that it waits for is queued in the cache.
pub proof fn cursors_pass_their_urgency_on<B: Backend, H: Host>(
    a: ManagerResidency<B, H>,
    s: Streaming<B, H>,
    index: u32,
    priority: u32,
    g: Get<ManagerPin>,
    b: ManagerResidency<B, H>,
    t: Streaming<B, H>,
    k: int,
)
    requires
        ManagerResidency::acquires(a, s, index, priority, g, b, t),
        g is Loading,
        backs_first(t.res@, g->Loading_0.spec_payload(), k),
    ensures
        waits(t.res@, k, priority),
{
    awaited_clusters_wait_at_the_cursors_urgency(
        s.res@,
        s.data(),
        a.spec_asset(),
        a.spec_cluster_size(),
        a.clusters(),
        index,
        priority,
        g,
        t.res@,
        t.data(),
        k,
    );
}

} // verus!
