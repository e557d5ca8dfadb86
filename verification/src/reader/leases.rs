//! What readers and reservations hold: the leases that they take are theirs, and they give
//! each of them back.
use crate::fill::chunk::StoredChunk;
use crate::fill::context::FillContext;
use crate::fill::fill_logic::SampleConvert;
use crate::fill::laws::finished_fills_are_ready;
use crate::fill::native::{
    deferred, fill_descriptor, fill_now_outcome, fill_outcome, finish_outcome, read_into,
    reserved_for, StreamView,
};
use crate::reader::reservation::{
    anchored, enqueued_unfilled, lemma_walk_len, load_outcome, loaded_as, loads, released_all,
    walk_geometry, woken, LoadMode, ReservationView, DEPTH, PREFETCH_PRIORITY,
};
use crate::reader::sample_reader::{
    acquire_fill_outcome, advanced_reader, asked_active, context_geometry, filled_or_released,
    frames_of, held_addr, holds_cluster, opened_reader, pin_step, pinned_anew, read_end,
    read_outcome, read_step, read_steps, released_held, serve_step, served_window, stride, visited,
    window_outcome, window_plan, ReadState, ReaderView, Window, WindowPlan,
};
use crate::resource::facade::queued_at;
use crate::resource::leases::{
    leases_at, lemma_release_leases, lemma_same_leases, lemma_try_acquire_leases, light, quiet,
    requests_take_one_lease, same_places,
};
use crate::resource::memory::{
    accounts_keep_memory_booked, backed, booked, lemma_backed_same, lemma_sound_before, net, one_if,
    requests_account_for_memory, sound, sound_memory_keeps_addresses_apart,
};
use crate::resource::model::{lemma_slot_at, unique_addresses, Model};
use crate::resource::trace::{goes_on, lemma_since, since, Event};
use crate::resource::types::NO_SLOT;
use vstd::prelude::*;

verus! {

/// The tables are in order, and the memory in them is what the cache was given.
pub open spec fn healthy(m: Model, data: StreamView) -> bool {
    m.consistent() && booked(m.chunks, data.memory)
}

/// The chunk at `q` has as many leases more in `n` than in `m` as `q` is `p`.
pub open spec fn one_more(m: Model, n: Model, p: usize) -> bool {
    forall|q: usize| q != 0 ==> #[trigger] leases_at(n, q) == leases_at(m, q) + one_if(q == p)
}

/// Every chunk has as many leases as before.
pub open spec fn as_many(m: Model, n: Model) -> bool {
    forall|q: usize| q != 0 ==> #[trigger] leases_at(n, q) == leases_at(m, q)
}

/// Nobody has leases on no chunk.
proof fn lemma_none_at_null(m: Model)
    ensures
        leases_at(m, 0) == 0,
{
}

/// Memory that is booked and sound is in one slot each.
pub proof fn lemma_apart(m: Model, data: StreamView, memory: Seq<Event>)
    requires
        healthy(m, data),
        goes_on(data.memory, memory),
        sound(memory),
    ensures
        sound(data.memory),
        unique_addresses(m),
{
    lemma_sound_before(data.memory, memory);
    sound_memory_keeps_addresses_apart(m, data.memory);
}

pub proof fn lemma_reserve(
    m: Model,
    data: StreamView,
    asset: u32,
    index: u32,
    cluster_size: u32,
    p: usize,
    n: Model,
    new_data: StreamView,
)
    requires
        healthy(m, data),
        light(m, 1),
        reserved_for(m, data, asset, index, cluster_size, p, n, new_data),
        sound(new_data.memory),
    ensures
        healthy(n, new_data),
        unique_addresses(n),
        goes_on(data.memory, new_data.memory),
        one_more(m, n, p),
{
    let ev = since(data.memory, new_data.memory);
    requests_account_for_memory(
        m,
        asset,
        index,
        cluster_size as usize,
        data.reclaim,
        ev,
        p,
        n,
    );
    accounts_keep_memory_booked(m.chunks, n.chunks, data.memory, new_data.memory);
    lemma_apart(m, data, new_data.memory);
    sound_memory_keeps_addresses_apart(n, new_data.memory);
    requests_take_one_lease(m, asset, index, cluster_size as usize, p, n);
}

/// The same chunks in the same places are as well booked.
pub proof fn lemma_still_booked(m: Model, n: Model, data: StreamView)
    requires
        booked(m.chunks, data.memory),
        same_places(m, n),
    ensures
        booked(n.chunks, data.memory),
{
    assert forall|p: usize| p != 0 implies #[trigger] backed(n.chunks, p)
        == net(data.memory, p) by {
        assert(backed(m.chunks, p)
            == net(data.memory, p));
        lemma_backed_same(m.chunks, n.chunks, p);
    }
}

/// A chunk that is looked up and queued stays where it is, and so does everything else.
pub proof fn lemma_queued(m: Model, p: usize, priority: u32)
    requires
        m.consistent(),
        unique_addresses(m),
    ensures
        ({
            let n = queued_at(m.searched_ptr(p), p, priority);
            &&& n.consistent()
            &&& unique_addresses(n)
            &&& quiet(m, n)
            &&& as_many(m, n)
        }),
{
    let s = m.searched_ptr(p);
    let t = s.searched_ptr(p);
    let slot = match s.slot_at(p) {
        Some(i) => i as u32,
        None => NO_SLOT,
    };
    lemma_same_leases(m, p, 0, 0);
    lemma_same_leases(s, p, 0, 0);
    lemma_same_leases(t, p, slot, priority);
}

/// A fill leaves every lease as it was.
pub proof fn fills_keep_leases<C: SampleConvert>(
    m: Model,
    contexts: Map<u32, FillContext>,
    a: StreamView,
    p: usize,
    awaited: bool,
    r: bool,
    n: Model,
    b: StreamView,
)
    requires
        healthy(m, a),
        unique_addresses(m),
        light(m, 3),
        fill_now_outcome::<C>(m, contexts, a, p, awaited, r, n, b),
    ensures
        healthy(n, b),
        unique_addresses(n),
        b.memory == a.memory,
        same_places(m, n),
        as_many(m, n),
{
    reveal(fill_now_outcome);
    let s = m.searched_ptr(p);
    let t = s.searched_ptr(p);
    lemma_same_leases(m, p, 0, 0);
    lemma_same_leases(s, p, 0, 0);
    if fill_descriptor(m, contexts, a.chunks, p).ok && deferred(a, b) {
        lemma_queued(m, p, b.asked.last()->priority);
    } else if fill_descriptor(m, contexts, a.chunks, p).ok {
        let (read_ok, bytes) = choose|read_ok: bool, bytes: Seq<u8>| #[trigger]
            fill_outcome::<C>(m, contexts, a.chunks, p, read_ok, bytes, r, n, b.chunks);
        let mid = choose|mid: Map<usize, StoredChunk>| #[trigger]
            read_into(a.chunks, p, bytes, mid) && finish_outcome::<C>(
                s,
                contexts,
                mid,
                p,
                read_ok,
                r,
                n,
                b.chunks,
            );
        if r {
            assert(light(s, 3)) by {
                assert forall|q: usize| #[trigger] leases_at(s, q) <= u32::MAX - 3 by {
                    assert(leases_at(m, q) <= u32::MAX - 3);
                    lemma_none_at_null(s);
                }
            }
            finished_fills_are_ready::<C>(s, contexts, mid, p, n, b.chunks);
        } else {
            assert(n == s || n == t);
        }
    }
    lemma_still_booked(m, n, a);
}

/// Making a cluster resident takes one lease, on the chunk that is given, or none.
pub proof fn acquiring_takes_one_lease<C: SampleConvert>(
    m: Model,
    contexts: Map<u32, FillContext>,
    data: StreamView,
    asset: u32,
    index: u32,
    cluster_size: u32,
    r: usize,
    n: Model,
    new_data: StreamView,
)
    requires
        healthy(m, data),
        light(m, 5),
        sound(new_data.memory),
        acquire_fill_outcome::<C>(
            m,
            contexts,
            data,
            asset,
            index,
            cluster_size,
            r,
            n,
            new_data,
        ),
    ensures
        healthy(n, new_data),
        unique_addresses(n),
        goes_on(data.memory, new_data.memory),
        one_more(m, n, r),
{
    lemma_acquire_memory::<C>(m, contexts, data, asset, index, cluster_size, r, n, new_data);
    reveal(acquire_fill_outcome);
    let a = m.try_acquire(asset, index);
    lemma_apart(m, data, new_data.memory);
    lemma_try_acquire_leases(m, asset, index);
    lemma_still_booked(m, a, data);
    if m.try_acquire_result(asset, index) == 0 {
        let (p, b, mid) = choose|p: usize, b: Model, mid: StreamView|
            {
                &&& #[trigger] reserved_for(a, data, asset, index, cluster_size, p, b, mid)
                &&& if p == 0 {
                    r == 0 && n == b && new_data == mid
                } else {
                    filled_or_released::<C>(b, contexts, mid, p, r, n, new_data)
                }
            };
        lemma_none_at_null(a);
        lemma_none_at_null(m);
        if p == 0 {
            lemma_reserve(a, data, asset, index, cluster_size, p, b, mid);
        } else {
            let (active, filled, c) = choose|active: bool, filled: bool, c: Model|
                {
                    &&& #[trigger] fill_now_outcome::<C>(
                        b,
                        contexts,
                        asked_active(mid, active),
                        p,
                        active,
                        filled,
                        c,
                        new_data,
                    )
                    &&& if filled {
                        r == p && n == c.mark_ready(p)
                    } else {
                        r == 0 && n == c.release(p)
                    }
                };
            lemma_fill_memory::<C>(
                b,
                contexts,
                asked_active(mid, active),
                p,
                active,
                filled,
                c,
                new_data,
            );
            lemma_reserve(a, data, asset, index, cluster_size, p, b, mid);
            lemma_none_at_null(b);
            fills_keep_leases::<C>(
                b,
                contexts,
                asked_active(mid, active),
                p,
                active,
                filled,
                c,
                new_data,
            );
            assert(leases_at(c, p) == leases_at(m, p) + 1);
            lemma_slot_at(m, p);
            if filled {
                lemma_same_leases(c, p, 0, 0);
                lemma_still_booked(c, n, new_data);
            } else {
                lemma_release_leases(c, p);
                lemma_still_booked(c, n, new_data);
            }
        }
    }
}

/// What is asked comes on top of what was asked before.
pub proof fn lemma_acquire_memory<C: SampleConvert>(
    m: Model,
    contexts: Map<u32, FillContext>,
    data: StreamView,
    asset: u32,
    index: u32,
    cluster_size: u32,
    r: usize,
    n: Model,
    new_data: StreamView,
)
    requires
        acquire_fill_outcome::<C>(
            m,
            contexts,
            data,
            asset,
            index,
            cluster_size,
            r,
            n,
            new_data,
        ),
    ensures
        goes_on(data.memory, new_data.memory),
        goes_on(data.asked, new_data.asked),
{
    reveal(acquire_fill_outcome);
    reveal(fill_now_outcome);
    assert(data.memory.take(data.memory.len() as int) =~= data.memory);
    assert(new_data.asked.take(data.asked.len() as int) =~= data.asked);
}

/// A fill asks for no memory.
pub proof fn lemma_fill_memory<C: SampleConvert>(
    m: Model,
    contexts: Map<u32, FillContext>,
    a: StreamView,
    p: usize,
    awaited: bool,
    r: bool,
    n: Model,
    b: StreamView,
)
    requires
        fill_now_outcome::<C>(m, contexts, a, p, awaited, r, n, b),
    ensures
        b.memory == a.memory,
{
    reveal(fill_now_outcome);
}

/// A cluster that is only visited leaves every lease as it was.
pub proof fn visits_keep_leases<C: SampleConvert>(
    m: Model,
    contexts: Map<u32, FillContext>,
    data: StreamView,
    asset: u32,
    index: u32,
    cluster_size: u32,
    r: bool,
    n: Model,
    new_data: StreamView,
)
    requires
        healthy(m, data),
        light(m, 5),
        sound(new_data.memory),
        visited::<C>(m, contexts, data, asset, index, cluster_size, r, n, new_data),
    ensures
        healthy(n, new_data),
        unique_addresses(n),
        goes_on(data.memory, new_data.memory),
        as_many(m, n),
{
    reveal(visited);
    let (p, b) = choose|p: usize, b: Model|
        {
            &&& #[trigger] acquire_fill_outcome::<C>(
                m,
                contexts,
                data,
                asset,
                index,
                cluster_size,
                p,
                b,
                new_data,
            )
            &&& r == (p != 0)
            &&& n == (if p != 0 {
                b.release(p)
            } else {
                b
            })
        };
    acquiring_takes_one_lease::<C>(m, contexts, data, asset, index, cluster_size, p, b, new_data);
    if p != 0 {
        lemma_slot_at(m, p);
        assert(leases_at(b, p) == leases_at(m, p) + 1);
        lemma_release_leases(b, p);
        lemma_still_booked(b, n, new_data);
    }
}

/// The lease that a reader holds, if it holds one, is on a chunk that is leased.
pub open spec fn holds(v: ReaderView, m: Model) -> bool {
    v.held is Some ==> leases_at(m, held_addr(v.held)) >= 1
}

/// Giving back what a reader holds.
pub proof fn lemma_release_held(m: Model, data: StreamView, v: ReaderView)
    requires
        healthy(m, data),
        unique_addresses(m),
        holds(v, m),
    ensures
        healthy(released_held(m, v.held), data),
        unique_addresses(released_held(m, v.held)),
        forall|q: usize|
            q != 0 ==> #[trigger] leases_at(released_held(m, v.held), q) == leases_at(m, q)
                - one_if(q == held_addr(v.held)),
{
    match v.held {
        Some((p, _)) => {
            lemma_release_leases(m, p);
            lemma_still_booked(m, m.release(p), data);
        },
        None => {},
    }
}

/// A window takes the lease on what it pins and gives back what was held before: apart from
/// what the reader itself holds, every chunk has as many leases as before.
pub proof fn windows_balance_their_leases<C: SampleConvert>(
    v: ReaderView,
    m: Model,
    contexts: Map<u32, FillContext>,
    data: StreamView,
    r: Window,
    w: ReaderView,
    n: Model,
    new_data: StreamView,
)
    requires
        healthy(m, data),
        light(m, 6),
        sound(new_data.memory),
        holds(v, m),
        window_outcome::<C>(v, m, contexts, data, r, w, n, new_data),
    ensures
        healthy(n, new_data),
        unique_addresses(n),
        goes_on(data.memory, new_data.memory),
        holds(w, n),
        forall|q: usize|
            q != 0 ==> #[trigger] leases_at(n, q) - one_if(q == held_addr(w.held)) == leases_at(
                m,
                q,
            ) - one_if(q == held_addr(v.held)),
{
    reveal(window_outcome);
    lemma_none_at_null(m);
    lemma_none_at_null(n);
    assert(data.memory.take(data.memory.len() as int) =~= data.memory);
    match window_plan(v.geometry, v.current_frame, v.direction) {
        WindowPlan::Serve { cluster, byte_offset, frame_count, needs_next } => {
            let (q, b, mid, next) = choose|q: usize, b: Model, mid: StreamView, next: bool|
                {
                    &&& #[trigger] pin_step::<C>(v, m, contexts, data, cluster, q, b, mid)
                    &&& #[trigger] serve_step::<C>(
                        v,
                        b,
                        contexts,
                        mid,
                        q,
                        needs_next,
                        cluster,
                        next,
                        w.held,
                        n,
                        new_data,
                    )
                    &&& r == served_window(
                        v,
                        q,
                        byte_offset,
                        frame_count,
                        needs_next,
                        next,
                        new_data.chunks,
                    )
                };
            lemma_serve_memory::<C>(
                v,
                b,
                contexts,
                mid,
                q,
                needs_next,
                cluster,
                next,
                w.held,
                n,
                new_data,
            );
            lemma_pin::<C>(v, m, contexts, data, cluster, q, b, mid, new_data);
            lemma_none_at_null(b);
            assert(light(b, 5)) by {
                assert forall|p: usize| #[trigger] leases_at(b, p) <= u32::MAX - 5 by {
                    if p != 0 {
                        assert(leases_at(b, p) == leases_at(m, p) + one_if(p == q) - one_if(
                            p == held_addr(v.held),
                        ));
                    }
                }
            }
            if q != 0 && needs_next {
                visits_keep_leases::<C>(
                    b,
                    contexts,
                    mid,
                    v.asset,
                    (cluster + 1) as u32,
                    v.geometry.cluster_size_bytes,
                    next,
                    n,
                    new_data,
                );
            }
            lemma_since(data.memory, mid.memory, new_data.memory);
            assert(held_addr(w.held) == q);
            if q != 0 {
                assert(leases_at(n, q) == leases_at(b, q));
            }
        },
        _ => {
            lemma_apart(m, data, new_data.memory);
        },
    }
}

/// What the second step of a window asks comes on top of what was asked before.
pub proof fn lemma_serve_memory<C: SampleConvert>(
    v: ReaderView,
    m: Model,
    contexts: Map<u32, FillContext>,
    data: StreamView,
    q: usize,
    needs_next: bool,
    cluster: u32,
    next: bool,
    held: Option<(usize, u32)>,
    n: Model,
    new_data: StreamView,
)
    requires
        serve_step::<C>(
            v,
            m,
            contexts,
            data,
            q,
            needs_next,
            cluster,
            next,
            held,
            n,
            new_data,
        ),
    ensures
        goes_on(data.memory, new_data.memory),
        goes_on(data.asked, new_data.asked),
{
    assert(data.asked.take(data.asked.len() as int) =~= data.asked);
    assert(data.memory.take(data.memory.len() as int) =~= data.memory);
    if q != 0 && needs_next {
        reveal(visited);
        let cs = v.geometry.cluster_size_bytes;
        let (p, b) = choose|p: usize, b: Model| #[trigger]
            acquire_fill_outcome::<C>(
                m,
                contexts,
                data,
                v.asset,
                (cluster + 1) as u32,
                cs,
                p,
                b,
                new_data,
            );
        lemma_acquire_memory::<C>(
            m,
            contexts,
            data,
            v.asset,
            (cluster + 1) as u32,
            cs,
            p,
            b,
            new_data,
        );
    }
}

/// The first step of a window: the lease on `q` is taken, or held already, and what was held
/// before is given back. `end` is how things stand later.
pub proof fn lemma_pin<C: SampleConvert>(
    v: ReaderView,
    m: Model,
    contexts: Map<u32, FillContext>,
    data: StreamView,
    cluster: u32,
    q: usize,
    n: Model,
    new_data: StreamView,
    end: StreamView,
)
    requires
        healthy(m, data),
        light(m, 6),
        holds(v, m),
        pin_step::<C>(v, m, contexts, data, cluster, q, n, new_data),
        goes_on(new_data.memory, end.memory),
        sound(end.memory),
    ensures
        healthy(n, new_data),
        unique_addresses(n),
        goes_on(data.memory, new_data.memory),
        q != 0 ==> leases_at(n, q) >= 1,
        forall|p: usize|
            p != 0 ==> #[trigger] leases_at(n, p) == leases_at(m, p) + one_if(p == q) - one_if(
                p == held_addr(v.held),
            ),
{
    lemma_sound_before(new_data.memory, end.memory);
    lemma_none_at_null(m);
    if holds_cluster(v, cluster) {
        assert(data.memory.take(data.memory.len() as int) =~= data.memory);
        sound_memory_keeps_addresses_apart(m, data.memory);
    } else {
        reveal(pinned_anew);
        let cs = v.geometry.cluster_size_bytes;
        let b = choose|b: Model| #[trigger]
            acquire_fill_outcome::<C>(
                m,
                contexts,
                data,
                v.asset,
                cluster,
                cs,
                q,
                b,
                new_data,
            ) && n == released_held(b, v.held);
        acquiring_takes_one_lease::<C>(
            m,
            contexts,
            data,
            v.asset,
            cluster,
            cs,
            q,
            b,
            new_data,
        );
        if v.held is Some {
            let h = held_addr(v.held);
            assert(h != 0);
            assert(leases_at(b, h) == leases_at(m, h) + one_if(h == q));
        }
        lemma_release_held(b, new_data, v);
        if q != 0 {
            lemma_slot_at(m, q);
            assert(leases_at(n, q) == leases_at(b, q) - one_if(q == held_addr(v.held)));
            assert(leases_at(b, q) == leases_at(m, q) + 1);
        }
    }
}

/// What a window asks comes on top of what was asked before.
pub proof fn lemma_window_memory<C: SampleConvert>(
    v: ReaderView,
    m: Model,
    contexts: Map<u32, FillContext>,
    data: StreamView,
    r: Window,
    w: ReaderView,
    n: Model,
    new_data: StreamView,
)
    requires
        window_outcome::<C>(v, m, contexts, data, r, w, n, new_data),
    ensures
        goes_on(data.memory, new_data.memory),
        goes_on(data.asked, new_data.asked),
{
    reveal(window_outcome);
    assert(data.memory.take(data.memory.len() as int) =~= data.memory);
    assert(data.asked.take(data.asked.len() as int) =~= data.asked);
    match window_plan(v.geometry, v.current_frame, v.direction) {
        WindowPlan::Serve { cluster, byte_offset, frame_count, needs_next } => {
            let (q, b, mid, next) = choose|q: usize, b: Model, mid: StreamView, next: bool|
                {
                    &&& #[trigger] pin_step::<C>(v, m, contexts, data, cluster, q, b, mid)
                    &&& #[trigger] serve_step::<C>(
                        v,
                        b,
                        contexts,
                        mid,
                        q,
                        needs_next,
                        cluster,
                        next,
                        w.held,
                        n,
                        new_data,
                    )
                };
            lemma_serve_memory::<C>(
                v,
                b,
                contexts,
                mid,
                q,
                needs_next,
                cluster,
                next,
                w.held,
                n,
                new_data,
            );
            if !holds_cluster(v, cluster) {
                reveal(pinned_anew);
                let cs = v.geometry.cluster_size_bytes;
                let c = choose|c: Model| #[trigger]
                    acquire_fill_outcome::<C>(m, contexts, data, v.asset, cluster, cs, q, c, mid);
                lemma_acquire_memory::<C>(m, contexts, data, v.asset, cluster, cs, q, c, mid);
            }
            lemma_since(data.memory, mid.memory, new_data.memory);
            lemma_since(data.asked, mid.asked, new_data.asked);
        },
        _ => {},
    }
}

/// A read under way: apart from what its reader holds, every chunk has as many leases as at
/// `m`.
pub open spec fn balanced(m: Model, t: ReadState) -> bool {
    &&& healthy(t.tables, t.data)
    &&& unique_addresses(t.tables)
    &&& holds(t.reader, t.tables)
    &&& forall|q: usize|
        q != 0 ==> #[trigger] leases_at(t.tables, q) - one_if(q == held_addr(t.reader.held))
            == leases_at(m, q)
}

pub proof fn lemma_balanced_light(m: Model, t: ReadState)
    requires
        light(m, 8),
        balanced(m, t),
    ensures
        light(t.tables, 6),
{
    lemma_none_at_null(t.tables);
    assert forall|p: usize| #[trigger] leases_at(t.tables, p) <= u32::MAX - 6 by {
        if p != 0 {
            assert(leases_at(t.tables, p) - one_if(p == held_addr(t.reader.held)) == leases_at(
                m,
                p,
            ));
            assert(leases_at(m, p) <= u32::MAX - 8);
        }
    }
}

pub proof fn lemma_step_memory<C: SampleConvert>(
    contexts: Map<u32, FillContext>,
    num_frames: int,
    a: ReadState,
    b: ReadState,
)
    requires
        read_step::<C>(contexts, num_frames, a, b),
    ensures
        goes_on(a.data.memory, b.data.memory),
        goes_on(a.data.asked, b.data.asked),
{
    reveal(read_step);
    let (w, v, x) = choose|w: Window, v: ReaderView, x: Model| #[trigger]
        window_outcome::<C>(a.reader, a.tables, contexts, a.data, w, v, x, b.data);
    lemma_window_memory::<C>(a.reader, a.tables, contexts, a.data, w, v, x, b.data);
}

proof fn lemma_step_balance<C: SampleConvert>(
    m: Model,
    contexts: Map<u32, FillContext>,
    num_frames: int,
    a: ReadState,
    b: ReadState,
)
    requires
        light(m, 8),
        balanced(m, a),
        sound(b.data.memory),
        read_step::<C>(contexts, num_frames, a, b),
    ensures
        balanced(m, b),
{
    lemma_balanced_light(m, a);
    reveal(read_step);
    let (w, v, x) = choose|w: Window, v: ReaderView, x: Model|
        {
            let n = frames_of(a, w, b.data.chunks, num_frames);
            &&& #[trigger] window_outcome::<C>(
                a.reader,
                a.tables,
                contexts,
                a.data,
                w,
                v,
                x,
                b.data,
            )
            &&& b.reader == advanced_reader(v, n as u32)
            &&& b.tables == (if b.reader.held == v.held {
                x
            } else {
                released_held(x, v.held)
            })
        };
    windows_balance_their_leases::<C>(a.reader, a.tables, contexts, a.data, w, v, x, b.data);
    assert forall|q: usize| q != 0 implies #[trigger] leases_at(x, q) - one_if(
        q == held_addr(v.held),
    ) == leases_at(m, q) by {
        assert(leases_at(a.tables, q) - one_if(q == held_addr(a.reader.held)) == leases_at(m, q));
    }
    if b.reader.held != v.held {
        lemma_release_held(x, b.data, v);
    }
}

/// The first `k` steps of a read that ends at `end`.
pub proof fn lemma_steps_balance<C: SampleConvert>(
    m: Model,
    contexts: Map<u32, FillContext>,
    num_frames: int,
    t: Seq<ReadState>,
    k: int,
    end: StreamView,
)
    requires
        light(m, 8),
        0 <= k < t.len(),
        balanced(m, t[0]),
        read_steps::<C>(contexts, num_frames, t),
        goes_on(t[k].data.memory, end.memory),
        sound(end.memory),
    ensures
        balanced(m, t[k]),
    decreases k,
{
    if k > 0 {
        reveal(read_steps);
        assert(read_step::<C>(contexts, num_frames, t[k - 1], t[k - 1 + 1]));
        lemma_step_memory::<C>(contexts, num_frames, t[k - 1], t[k]);
        lemma_since(t[k - 1].data.memory, t[k].data.memory, end.memory);
        lemma_steps_balance::<C>(m, contexts, num_frames, t, k - 1, end);
        lemma_sound_before(t[k].data.memory, end.memory);
        lemma_step_balance::<C>(m, contexts, num_frames, t[k - 1], t[k]);
    }
}

/// A read leaves every lease as it was: nothing stays pinned, and nobody else's lease is
/// given back.
pub proof fn reads_keep_leases<C: SampleConvert>(
    m: Model,
    contexts: Map<u32, FillContext>,
    data: StreamView,
    asset: u32,
    start_frame: u64,
    num_frames: u32,
    dest: Seq<u8>,
    r: u32,
    new_dest: Seq<u8>,
    n: Model,
    new_data: StreamView,
)
    requires
        healthy(m, data),
        light(m, 8),
        sound(new_data.memory),
        read_outcome::<C>(
            m,
            contexts,
            data,
            asset,
            start_frame,
            num_frames,
            dest,
            r,
            new_dest,
            n,
            new_data,
        ),
    ensures
        healthy(n, new_data),
        as_many(m, n),
{
    let geo = context_geometry(contexts[asset]);
    if contexts.dom().contains(asset) && stride(geo) != 0 {
        let t = choose|t: Seq<ReadState>|
            {
                &&& #[trigger] read_steps::<C>(contexts, num_frames as int, t)
                &&& t.len() > 0
                &&& t[0] == (ReadState {
                    reader: opened_reader(geo, asset, start_frame),
                    tables: m,
                    data,
                    dest,
                    written: 0,
                })
                &&& t.last().written == r
                &&& t.last().dest == new_dest
                &&& read_end::<C>(contexts, num_frames as int, t.last(), n, new_data)
            };
        let a = t.last();
        let k = t.len() - 1;
        reveal(read_end);
        assert(a.data.memory.take(a.data.memory.len() as int) =~= a.data.memory);
        if a.written >= num_frames {
            lemma_first_balanced::<C>(m, contexts, data, num_frames as int, t, new_data);
            lemma_steps_balance::<C>(m, contexts, num_frames as int, t, k, new_data);
            lemma_release_held(a.tables, a.data, a.reader);
        } else {
            let (w, v, x) = choose|w: Window, v: ReaderView, x: Model|
                {
                    &&& #[trigger] window_outcome::<C>(
                        a.reader,
                        a.tables,
                        contexts,
                        a.data,
                        w,
                        v,
                        x,
                        new_data,
                    )
                    &&& frames_of(a, w, new_data.chunks, num_frames as int) == 0
                    &&& n == released_held(x, v.held)
                };
            lemma_window_memory::<C>(a.reader, a.tables, contexts, a.data, w, v, x, new_data);
            lemma_first_balanced::<C>(m, contexts, data, num_frames as int, t, new_data);
            lemma_steps_balance::<C>(m, contexts, num_frames as int, t, k, new_data);
            lemma_balanced_light(m, a);
            windows_balance_their_leases::<C>(
                a.reader,
                a.tables,
                contexts,
                a.data,
                w,
                v,
                x,
                new_data,
            );
            lemma_release_held(x, new_data, v);
            assert forall|q: usize| q != 0 implies #[trigger] leases_at(n, q) == leases_at(
                m,
                q,
            ) by {
                assert(leases_at(a.tables, q) - one_if(q == held_addr(a.reader.held))
                    == leases_at(m, q));
                assert(leases_at(x, q) - one_if(q == held_addr(v.held)) == leases_at(a.tables, q)
                    - one_if(q == held_addr(a.reader.held)));
            }
        }
    }
}

/// A read starts with nothing held.
pub proof fn lemma_first_balanced<C: SampleConvert>(
    m: Model,
    contexts: Map<u32, FillContext>,
    data: StreamView,
    num_frames: int,
    t: Seq<ReadState>,
    end: StreamView,
)
    requires
        healthy(m, data),
        t.len() > 0,
        t[0].tables == m,
        t[0].data == data,
        t[0].reader.held is None,
        read_steps::<C>(contexts, num_frames, t),
        goes_on(t.last().data.memory, end.memory),
        sound(end.memory),
    ensures
        balanced(m, t[0]),
{
    lemma_steps_memory::<C>(contexts, num_frames, t, t.len() - 1);
    lemma_since(data.memory, t.last().data.memory, end.memory);
    lemma_apart(m, data, end.memory);
}

pub proof fn lemma_steps_memory<C: SampleConvert>(
    contexts: Map<u32, FillContext>,
    num_frames: int,
    t: Seq<ReadState>,
    k: int,
)
    requires
        0 <= k < t.len(),
        read_steps::<C>(contexts, num_frames, t),
    ensures
        goes_on(t[0].data.memory, t[k].data.memory),
    decreases k,
{
    if k == 0 {
        let x = t[0].data.memory;
        assert(x.take(x.len() as int) =~= x);
    } else {
        lemma_steps_memory::<C>(contexts, num_frames, t, k - 1);
        reveal(read_steps);
        assert(read_step::<C>(contexts, num_frames, t[k - 1], t[k - 1 + 1]));
        lemma_step_memory::<C>(contexts, num_frames, t[k - 1], t[k]);
        lemma_since(t[0].data.memory, t[k - 1].data.memory, t[k].data.memory);
    }
}

/// Queuing a chunk for the loader, unless it is ready, changes no lease.
proof fn lemma_enqueued(m: Model, data: StreamView, p: usize)
    requires
        healthy(m, data),
        unique_addresses(m),
    ensures
        healthy(enqueued_unfilled(m, p), data),
        unique_addresses(enqueued_unfilled(m, p)),
        as_many(m, enqueued_unfilled(m, p)),
{
    let a = m.searched_ptr(p);
    let b = a.searched_ptr(p);
    let slot = match m.slot_at(p) {
        Some(i) => i as u32,
        None => NO_SLOT,
    };
    lemma_same_leases(m, p, 0, 0);
    lemma_same_leases(a, p, 0, 0);
    lemma_same_leases(b, p, slot, PREFETCH_PRIORITY);
    lemma_still_booked(m, enqueued_unfilled(m, p), data);
}

/// Loading a cluster asks for memory only on top of what was asked before.
proof fn lemma_load_memory<C: SampleConvert>(
    m: Model,
    contexts: Map<u32, FillContext>,
    data: StreamView,
    asset: u32,
    index: u32,
    cluster_size: u32,
    mode: LoadMode,
    r: usize,
    n: Model,
    new_data: StreamView,
)
    requires
        load_outcome::<C>(
            m,
            contexts,
            data,
            asset,
            index,
            cluster_size,
            mode,
            r,
            n,
            new_data,
        ),
    ensures
        goes_on(data.memory, new_data.memory),
{
    reveal(load_outcome);
    reveal(fill_now_outcome);
    assert(data.memory.take(data.memory.len() as int) =~= data.memory);
}

/// Loading a cluster for a reservation takes one lease, on the chunk that is given, or none.
pub proof fn loading_takes_one_lease<C: SampleConvert>(
    m: Model,
    contexts: Map<u32, FillContext>,
    data: StreamView,
    asset: u32,
    index: u32,
    cluster_size: u32,
    mode: LoadMode,
    r: usize,
    n: Model,
    new_data: StreamView,
)
    requires
        healthy(m, data),
        light(m, 5),
        sound(new_data.memory),
        load_outcome::<C>(
            m,
            contexts,
            data,
            asset,
            index,
            cluster_size,
            mode,
            r,
            n,
            new_data,
        ),
    ensures
        healthy(n, new_data),
        unique_addresses(n),
        goes_on(data.memory, new_data.memory),
        one_more(m, n, r),
{
    lemma_load_memory::<C>(m, contexts, data, asset, index, cluster_size, mode, r, n, new_data);
    reveal(load_outcome);
    let a = m.try_acquire(asset, index);
    lemma_apart(m, data, new_data.memory);
    lemma_try_acquire_leases(m, asset, index);
    lemma_still_booked(m, a, data);
    if m.try_acquire_result(asset, index) == 0 {
        let (p, b, mid) = choose|p: usize, b: Model, mid: StreamView|
            {
                &&& #[trigger] reserved_for(a, data, asset, index, cluster_size, p, b, mid)
                &&& if p == 0 {
                    r == 0 && n == b && new_data == mid
                } else {
                    loaded_as::<C>(b, contexts, mid, p, mode, r, n, new_data)
                }
            };
        lemma_none_at_null(a);
        lemma_none_at_null(m);
        assert(mid.memory == new_data.memory) by {
            reveal(fill_now_outcome);
        }
        lemma_reserve(a, data, asset, index, cluster_size, p, b, mid);
        lemma_none_at_null(b);
        if p != 0 {
            lemma_slot_at(m, p);
            assert(leases_at(b, p) == leases_at(m, p) + 1);
            if mode == LoadMode::Enqueue {
                lemma_enqueued(b, mid, p);
            } else {
                let (filled, c, after) = choose|filled: bool, c: Model, after: StreamView|
                    {
                        &&& #[trigger] fill_now_outcome::<C>(
                            b,
                            contexts,
                            mid,
                            p,
                            false,
                            filled,
                            c,
                            after,
                        )
                        &&& if filled {
                            r == p && n == c.mark_ready(p) && new_data == after
                        } else if mode == LoadMode::NowOrEnqueue {
                            r == p && n == enqueued_unfilled(c, p) && new_data == woken(
                                c,
                                p,
                                after,
                            )
                        } else {
                            r == 0 && n == c.release(p) && new_data == after
                        }
                    };
                fills_keep_leases::<C>(b, contexts, mid, p, false, filled, c, after);
                assert(leases_at(c, p) == leases_at(b, p));
                if filled {
                    lemma_same_leases(c, p, 0, 0);
                    lemma_still_booked(c, n, new_data);
                } else if mode == LoadMode::NowOrEnqueue {
                    lemma_enqueued(c, after, p);
                } else {
                    lemma_release_leases(c, p);
                    lemma_still_booked(c, n, new_data);
                }
            }
        }
    }
}

/// How often `q` is among `addrs`.
pub open spec fn count_at(addrs: Seq<usize>, q: usize) -> int
    decreases addrs.len(),
{
    if addrs.len() == 0 {
        0
    } else {
        count_at(addrs.drop_last(), q) + one_if(addrs.last() == q)
    }
}

proof fn lemma_count_at(addrs: Seq<usize>, q: usize)
    ensures
        0 <= count_at(addrs, q) <= addrs.len(),
    decreases addrs.len(),
{
    if addrs.len() > 0 {
        lemma_count_at(addrs.drop_last(), q);
    }
}

/// Loading clusters one after the other takes as many leases on each chunk as it is among
/// those that are given.
proof fn lemma_loads<C: SampleConvert>(
    m: Model,
    contexts: Map<u32, FillContext>,
    data: StreamView,
    asset: u32,
    cluster_size: u32,
    mode: LoadMode,
    covered: Seq<u32>,
    addrs: Seq<usize>,
    n: Model,
    new_data: StreamView,
    end: StreamView,
)
    requires
        healthy(m, data),
        light(m, 5 + covered.len() as int),
        loads::<C>(
            m,
            contexts,
            data,
            asset,
            cluster_size,
            mode,
            covered,
            addrs,
            n,
            new_data,
        ),
        goes_on(new_data.memory, end.memory),
        sound(end.memory),
    ensures
        healthy(n, new_data),
        unique_addresses(n),
        forall|q: usize|
            q != 0 ==> #[trigger] leases_at(n, q) == leases_at(m, q) + count_at(addrs, q),
    decreases covered.len(),
{
    lemma_sound_before(new_data.memory, end.memory);
    if covered.len() == 0 {
        lemma_apart(m, data, end.memory);
    } else {
        let (a, mid) = choose|a: Model, mid: StreamView|
            {
                &&& loads::<C>(
                    m,
                    contexts,
                    data,
                    asset,
                    cluster_size,
                    mode,
                    covered.drop_last(),
                    addrs.drop_last(),
                    a,
                    mid,
                )
                &&& #[trigger] load_outcome::<C>(
                    a,
                    contexts,
                    mid,
                    asset,
                    covered.last(),
                    cluster_size,
                    mode,
                    addrs.last(),
                    n,
                    new_data,
                )
            };
        lemma_load_memory::<C>(
            a,
            contexts,
            mid,
            asset,
            covered.last(),
            cluster_size,
            mode,
            addrs.last(),
            n,
            new_data,
        );
        lemma_since(mid.memory, new_data.memory, end.memory);
        lemma_loads::<C>(
            m,
            contexts,
            data,
            asset,
            cluster_size,
            mode,
            covered.drop_last(),
            addrs.drop_last(),
            a,
            mid,
            end,
        );
        lemma_none_at_null(a);
        assert(light(a, 5)) by {
            assert forall|p: usize| #[trigger] leases_at(a, p) <= u32::MAX - 5 by {
                if p != 0 {
                    lemma_count_at(addrs.drop_last(), p);
                    assert(leases_at(a, p) == leases_at(m, p) + count_at(addrs.drop_last(), p));
                    assert(leases_at(m, p) <= u32::MAX - (5 + covered.len()));
                }
            }
        }
        loading_takes_one_lease::<C>(
            a,
            contexts,
            mid,
            asset,
            covered.last(),
            cluster_size,
            mode,
            addrs.last(),
            n,
            new_data,
        );
        assert forall|q: usize| q != 0 implies #[trigger] leases_at(n, q) == leases_at(m, q)
            + count_at(addrs, q) by {
            assert(leases_at(a, q) == leases_at(m, q) + count_at(addrs.drop_last(), q));
        }
    }
}

/// Closing gives back one lease for each chunk that is held.
pub proof fn closing_gives_the_leases_back(m: Model, data: StreamView, addrs: Seq<usize>)
    requires
        healthy(m, data),
        unique_addresses(m),
        forall|q: usize| q != 0 ==> #[trigger] leases_at(m, q) >= count_at(addrs, q),
    ensures
        healthy(released_all(m, addrs), data),
        unique_addresses(released_all(m, addrs)),
        forall|q: usize|
            q != 0 ==> #[trigger] leases_at(released_all(m, addrs), q) == leases_at(m, q)
                - count_at(addrs, q),
    decreases addrs.len(),
{
    if addrs.len() > 0 {
        let most = addrs.drop_last();
        assert forall|q: usize| q != 0 implies #[trigger] leases_at(m, q) >= count_at(most, q) by {
            assert(leases_at(m, q) >= count_at(addrs, q));
        }
        closing_gives_the_leases_back(m, data, most);
        let b = released_all(m, most);
        let p = addrs.last();
        if p != 0 {
            assert(leases_at(b, p) == leases_at(m, p) - count_at(most, p));
            assert(leases_at(m, p) >= count_at(addrs, p));
            lemma_release_leases(b, p);
            lemma_still_booked(b, b.release(p), data);
        }
        assert forall|q: usize| q != 0 implies #[trigger] leases_at(released_all(m, addrs), q)
            == leases_at(m, q) - count_at(addrs, q) by {
            assert(leases_at(b, q) == leases_at(m, q) - count_at(most, q));
        }
    }
}

/// A reservation holds one lease for each cluster that it could load. Closed at once, it
/// leaves every lease as it was.
pub proof fn reservations_hold_what_they_cover<C: SampleConvert>(
    m: Model,
    contexts: Map<u32, FillContext>,
    data: StreamView,
    asset: u32,
    marker_frame: u64,
    direction: i8,
    mode: LoadMode,
    v: ReservationView,
    n: Model,
    new_data: StreamView,
)
    requires
        healthy(m, data),
        light(m, 8),
        sound(new_data.memory),
        anchored::<C>(
            m,
            contexts,
            data,
            asset,
            marker_frame,
            direction,
            mode,
            v,
            n,
            new_data,
        ),
    ensures
        healthy(n, new_data),
        unique_addresses(n),
        forall|q: usize|
            q != 0 ==> #[trigger] leases_at(n, q) == leases_at(m, q) + count_at(v.addrs, q),
        as_many(m, released_all(n, v.addrs)),
{
    let x = new_data.memory;
    assert(x.take(x.len() as int) =~= x);
    match walk_geometry(contexts, asset, marker_frame) {
        None => {
            lemma_apart(m, data, new_data.memory);
        },
        Some(g) => {
            lemma_walk_len(g, direction, DEPTH as nat);
            lemma_loads::<C>(
                m,
                contexts,
                data,
                asset,
                g.cluster_size,
                mode,
                v.covered,
                v.addrs,
                n,
                new_data,
                new_data,
            );
        },
    }
    assert forall|q: usize| q != 0 implies #[trigger] leases_at(n, q) >= count_at(v.addrs, q) by {
        assert(leases_at(n, q) == leases_at(m, q) + count_at(v.addrs, q));
        lemma_slot_at(m, q);
    }
    closing_gives_the_leases_back(n, new_data, v.addrs);
}

} // verus!
