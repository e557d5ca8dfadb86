//! Leases by address: what reading takes it gives back, whatever the tables hold.
use crate::fill::chunk::StoredChunk;
use crate::fill::context::FillContext;
use crate::fill::fill_logic::SampleConvert;
use crate::fill::native::{
    after_next, after_prev, deferred, fill_descriptor, fill_now_outcome, fill_outcome,
    finish_outcome, next_leased, prev_leased, read_into, released_if, reserved_for, resolved,
    StreamView,
};
use crate::reader::sample_reader::{
    acquire_fill_outcome, advanced_reader, asked_active, context_geometry, filled_or_released,
    frames_of, held_addr, holds_cluster, opened_reader, pin_step, pinned_anew, read_end,
    read_outcome, read_step, read_steps, released_held, serve_step, served_window, stride, visited,
    window_outcome, window_plan, ReadState, ReaderView, Window, WindowPlan,
};
use crate::resource::facade::{queued_at, request_outcome};
use crate::resource::model::Model;
use crate::resource::trace::{chained, lemma_chained, lemma_chained_none, lemma_chained_one};
use crate::resource::types::NO_SLOT;
use vstd::multiset::Multiset;
use vstd::prelude::*;

verus! {

/// One operation on the tables, as far as leases go.
pub enum LeaseEvent {
    /// A chunk was asked for, and leased at `p`; not if that is 0.
    Took { p: usize },
    /// One lease on the chunk at `p` was given back.
    Gave { p: usize },
    /// A chunk was looked up, said to be ready, or queued.
    Aside,
}

/// A ready chunk was asked for, and `p` is its address, or 0.
pub open spec fn taken_ready(m: Model, p: usize, n: Model) -> bool {
    exists|asset: u32, index: u32|
        p == m.try_acquire_result(asset, index) && n == #[trigger] m.try_acquire(asset, index)
}

/// A chunk was requested, and `p` is its address, or 0.
pub open spec fn taken_requested(m: Model, p: usize, n: Model) -> bool {
    exists|asset: u32, index: u32, size: usize| #[trigger]
        request_outcome(m, asset, index, size, p, n)
}

/// Nothing was leased or given back.
pub open spec fn set_aside(m: Model, n: Model) -> bool {
    ||| exists|q: usize| n == #[trigger] m.searched_ptr(q)
    ||| exists|q: usize| n == #[trigger] m.mark_ready(q)
    ||| exists|slot: u32, priority: u32| n == #[trigger] m.enqueue(slot, priority)
}

/// `e` leads from the tables `m` to `n`.
pub open spec fn lease_step(m: Model, e: LeaseEvent, n: Model) -> bool {
    match e {
        LeaseEvent::Took { p } => taken_ready(m, p, n) || taken_requested(m, p, n),
        LeaseEvent::Gave { p } => n == m.release(p),
        LeaseEvent::Aside => set_aside(m, n),
    }
}

/// One lease at `p`, or none if that is 0.
pub open spec fn one_at(p: usize) -> Multiset<usize> {
    if p == 0 {
        Multiset::empty()
    } else {
        Multiset::singleton(p)
    }
}

/// The addresses at which leases were taken.
pub open spec fn took(ev: Seq<LeaseEvent>) -> Multiset<usize>
    decreases ev.len(),
{
    if ev.len() == 0 {
        Multiset::empty()
    } else {
        took(ev.drop_last()).add(
            match ev.last() {
                LeaseEvent::Took { p } => one_at(p),
                _ => Multiset::empty(),
            },
        )
    }
}

/// The addresses at which leases were given back.
pub open spec fn gave(ev: Seq<LeaseEvent>) -> Multiset<usize>
    decreases ev.len(),
{
    if ev.len() == 0 {
        Multiset::empty()
    } else {
        gave(ev.drop_last()).add(
            match ev.last() {
                LeaseEvent::Gave { p } => one_at(p),
                _ => Multiset::empty(),
            },
        )
    }
}

/// All of `ev`, in this order, leads from `m` to `n`.
pub open spec fn lease_steps(m: Model, ev: Seq<LeaseEvent>, n: Model) -> bool {
    chained(|a: Model, e: LeaseEvent, b: Model| lease_step(a, e, b), m, ev, n)
}

/// Operations lead from `m` to `n`, and account for leases: those that are held before and
/// those that are taken are those that are held after and those that are given back.
#[verifier::opaque]
pub open spec fn balances(
    m: Model,
    before: Multiset<usize>,
    n: Model,
    after: Multiset<usize>,
) -> bool {
    exists|ev: Seq<LeaseEvent>|
        {
            &&& #[trigger] lease_steps(m, ev, n)
            &&& before.add(took(ev)) == after.add(gave(ev))
        }
}

proof fn lemma_sums(a: Seq<LeaseEvent>, b: Seq<LeaseEvent>)
    ensures
        took(a + b) =~= took(a).add(took(b)),
        gave(a + b) =~= gave(a).add(gave(b)),
    decreases b.len(),
{
    if b.len() == 0 {
        assert(a + b =~= a);
    } else {
        lemma_sums(a, b.drop_last());
        assert((a + b).drop_last() =~= a + b.drop_last());
        assert((a + b).last() == b.last());
    }
}

proof fn lemma_none(m: Model, h: Multiset<usize>)
    ensures
        balances(m, h, m, h),
{
    reveal(balances);
    lemma_chained_none(|a: Model, e: LeaseEvent, b: Model| lease_step(a, e, b), m);
    assert(lease_steps(m, Seq::empty(), m));
}

proof fn lemma_one(
    m: Model,
    before: Multiset<usize>,
    e: LeaseEvent,
    n: Model,
    after: Multiset<usize>,
)
    requires
        lease_step(m, e, n),
        match e {
            LeaseEvent::Took { p } => after =~= before.add(one_at(p)),
            LeaseEvent::Gave { p } => before =~= after.add(one_at(p)),
            LeaseEvent::Aside => after =~= before,
        },
    ensures
        balances(m, before, n, after),
{
    reveal(balances);
    lemma_chained_one(|a: Model, e: LeaseEvent, b: Model| lease_step(a, e, b), m, e, n);
    assert(lease_steps(m, seq![e], n));
    assert(seq![e].drop_last() =~= Seq::<LeaseEvent>::empty());
    reveal_with_fuel(took, 2);
    reveal_with_fuel(gave, 2);
    assert(before.add(took(seq![e])) =~= after.add(gave(seq![e])));
}

proof fn lemma_then(
    m: Model,
    a: Multiset<usize>,
    n: Model,
    b: Multiset<usize>,
    o: Model,
    c: Multiset<usize>,
)
    requires
        balances(m, a, n, b),
        balances(n, b, o, c),
    ensures
        balances(m, a, o, c),
{
    reveal(balances);
    let e = choose|ev: Seq<LeaseEvent>|
        #[trigger] lease_steps(m, ev, n) && a.add(took(ev)) == b.add(gave(ev));
    let f = choose|ev: Seq<LeaseEvent>|
        #[trigger] lease_steps(n, ev, o) && b.add(took(ev)) == c.add(gave(ev));
    lemma_chained(|x: Model, e: LeaseEvent, y: Model| lease_step(x, e, y), m, e, n, f, o);
    lemma_sums(e, f);
    assert(lease_steps(m, e + f, o));
    assert(a.add(took(e + f)) =~= c.add(gave(e + f))) by {
        assert forall|p: usize| #[trigger] a.add(took(e + f)).count(p) == c.add(
            gave(e + f),
        ).count(p) by {
            assert(a.add(took(e)).count(p) == b.add(gave(e)).count(p));
            assert(b.add(took(f)).count(p) == c.add(gave(f)).count(p));
        }
    }
}

/// A lookup by address.
proof fn lemma_lookup(m: Model, q: usize, h: Multiset<usize>)
    ensures
        balances(m, h, m.searched_ptr(q), h),
{
    assert(set_aside(m, m.searched_ptr(q)));
    lemma_one(m, h, LeaseEvent::Aside, m.searched_ptr(q), h);
}

/// A chunk said to be ready.
proof fn lemma_marked(m: Model, q: usize, h: Multiset<usize>)
    ensures
        balances(m, h, m.mark_ready(q), h),
{
    assert(set_aside(m, m.mark_ready(q)));
    lemma_one(m, h, LeaseEvent::Aside, m.mark_ready(q), h);
}

/// A chunk looked up and queued.
proof fn lemma_queued(m: Model, q: usize, priority: u32, h: Multiset<usize>)
    ensures
        balances(m, h, queued_at(m, q, priority), h),
{
    let n = m.searched_ptr(q);
    let slot = match m.slot_at(q) {
        Some(i) => i as u32,
        None => NO_SLOT,
    };
    lemma_lookup(m, q, h);
    assert(set_aside(n, n.enqueue(slot, priority)));
    lemma_one(n, h, LeaseEvent::Aside, n.enqueue(slot, priority), h);
    lemma_then(m, h, n, h, n.enqueue(slot, priority), h);
}

/// A ready chunk leased, if it is there.
proof fn lemma_taken(m: Model, asset: u32, index: u32, h: Multiset<usize>)
    ensures
        balances(
            m,
            h,
            m.try_acquire(asset, index),
            h.add(one_at(m.try_acquire_result(asset, index))),
        ),
{
    let p = m.try_acquire_result(asset, index);
    let n = m.try_acquire(asset, index);
    assert(taken_ready(m, p, n));
    lemma_one(m, h, LeaseEvent::Took { p }, n, h.add(one_at(p)));
}

/// A chunk requested.
proof fn lemma_requested(
    m: Model,
    asset: u32,
    index: u32,
    size: usize,
    p: usize,
    n: Model,
    h: Multiset<usize>,
)
    requires
        request_outcome(m, asset, index, size, p, n),
    ensures
        balances(m, h, n, h.add(one_at(p))),
{
    assert(taken_requested(m, p, n));
    lemma_one(m, h, LeaseEvent::Took { p }, n, h.add(one_at(p)));
}

/// A lease given back.
proof fn lemma_given(m: Model, p: usize, h: Multiset<usize>)
    ensures
        balances(m, h.add(one_at(p)), m.release(p), h),
{
    lemma_one(m, h.add(one_at(p)), LeaseEvent::Gave { p }, m.release(p), h);
}

/// A lease given back, if there is one.
proof fn lemma_given_if(m: Model, p: usize, h: Multiset<usize>)
    ensures
        balances(m, h.add(one_at(p)), released_if(m, p), h),
{
    if p != 0 {
        lemma_given(m, p, h);
    } else {
        assert(h.add(one_at(p)) =~= h);
        lemma_none(m, h);
    }
}

/// The end of a fill: the neighbours are leased and given back.
proof fn lemma_finish<C: SampleConvert>(
    m: Model,
    contexts: Map<u32, FillContext>,
    chunks: Map<usize, StoredChunk>,
    p: usize,
    read_ok: bool,
    r: bool,
    n: Model,
    new_chunks: Map<usize, StoredChunk>,
    h: Multiset<usize>,
)
    requires
        finish_outcome::<C>(m, contexts, chunks, p, read_ok, r, n, new_chunks),
    ensures
        balances(m, h, n, h),
{
    if !read_ok {
        lemma_none(m, h);
    } else if !r {
        lemma_lookup(m, p, h);
    } else {
        let (asset, index, ctx) = resolved(m, contexts, p)->0;
        let a = m.searched_ptr(p);
        let b = after_prev(a, asset, index);
        let c = after_next(b, asset, index);
        let x = prev_leased(a, asset, index);
        let y = next_leased(b, asset, index);
        let hx = h.add(one_at(x));
        let hy = h.add(one_at(y));
        let hxy = hx.add(one_at(y));
        let d = released_if(c, x);
        let e = released_if(d, y);
        reveal(after_prev);
        reveal(after_next);
        reveal(prev_leased);
        reveal(next_leased);
        lemma_lookup(m, p, h);
        assert(balances(a, h, b, hx)) by {
            if index > 0 {
                lemma_taken(a, asset, (index - 1) as u32, h);
            } else {
                assert(hx =~= h);
                lemma_none(a, h);
            }
        }
        assert(balances(b, hx, c, hxy)) by {
            if index < u32::MAX {
                lemma_taken(b, asset, (index + 1) as u32, hx);
            } else {
                assert(hxy =~= hx);
                lemma_none(b, hx);
            }
        }
        assert(hxy =~= hy.add(one_at(x)));
        lemma_given_if(c, x, hy);
        lemma_given_if(d, y, h);
        lemma_marked(e, p, h);
        lemma_then(m, h, a, h, b, hx);
        lemma_then(m, h, b, hx, c, hxy);
        lemma_then(m, h, c, hxy, d, hy);
        lemma_then(m, h, d, hy, e, h);
        lemma_then(m, h, e, h, n, h);
    }
}

/// A fill.
proof fn lemma_fill<C: SampleConvert>(
    m: Model,
    contexts: Map<u32, FillContext>,
    a: StreamView,
    p: usize,
    awaited: bool,
    r: bool,
    n: Model,
    b: StreamView,
    h: Multiset<usize>,
)
    requires
        fill_now_outcome::<C>(m, contexts, a, p, awaited, r, n, b),
    ensures
        balances(m, h, n, h),
{
    reveal(fill_now_outcome);
    let d = fill_descriptor(m, contexts, a.chunks, p);
    let s = m.searched_ptr(p);
    lemma_lookup(m, p, h);
    if d.ok && deferred(a, b) {
        lemma_queued(s, p, b.asked.last()->priority, h);
        lemma_then(m, h, s, h, n, h);
    } else if d.ok {
        let (read_ok, bytes) = choose|read_ok: bool, bytes: Seq<u8>| #[trigger]
            fill_outcome::<C>(m, contexts, a.chunks, p, read_ok, bytes, r, n, b.chunks);
        let mid = choose|mid: Map<usize, StoredChunk>| #[trigger]
            read_into(a.chunks, p, bytes, mid) && finish_outcome::<C>(
                s,
                contexts,
                mid,
                p,
                read_ok,
                r,
                n,
                b.chunks,
            );
        lemma_finish::<C>(s, contexts, mid, p, read_ok, r, n, b.chunks, h);
        lemma_then(m, h, s, h, n, h);
    }
}

/// A cluster made resident: one lease is taken, on the chunk that is given.
proof fn lemma_acquire<C: SampleConvert>(
    m: Model,
    contexts: Map<u32, FillContext>,
    data: StreamView,
    asset: u32,
    index: u32,
    cluster_size: u32,
    r: usize,
    n: Model,
    new_data: StreamView,
    h: Multiset<usize>,
)
    requires
        acquire_fill_outcome::<C>(
            m,
            contexts,
            data,
            asset,
            index,
            cluster_size,
            r,
            n,
            new_data,
        ),
    ensures
        balances(m, h, n, h.add(one_at(r))),
{
    reveal(acquire_fill_outcome);
    let a = m.try_acquire(asset, index);
    lemma_taken(m, asset, index, h);
    if m.try_acquire_result(asset, index) == 0 {
        assert(h.add(one_at(0)) =~= h);
        let (p, b, mid) = choose|p: usize, b: Model, mid: StreamView|
            {
                &&& #[trigger] reserved_for(a, data, asset, index, cluster_size, p, b, mid)
                &&& if p == 0 {
                    r == 0 && n == b && new_data == mid
                } else {
                    filled_or_released::<C>(b, contexts, mid, p, r, n, new_data)
                }
            };
        let hp = h.add(one_at(p));
        lemma_requested(a, asset, index, cluster_size as usize, p, b, h);
        lemma_then(m, h, a, h, b, hp);
        if p != 0 {
            let (active, filled, c) = choose|active: bool, filled: bool, c: Model|
                {
                    &&& #[trigger] fill_now_outcome::<C>(
                        b,
                        contexts,
                        asked_active(mid, active),
                        p,
                        active,
                        filled,
                        c,
                        new_data,
                    )
                    &&& if filled {
                        r == p && n == c.mark_ready(p)
                    } else {
                        r == 0 && n == c.release(p)
                    }
                };
            lemma_fill::<C>(
                b,
                contexts,
                asked_active(mid, active),
                p,
                active,
                filled,
                c,
                new_data,
                hp,
            );
            lemma_then(m, h, b, hp, c, hp);
            if filled {
                lemma_marked(c, p, hp);
                lemma_then(m, h, c, hp, n, hp);
            } else {
                lemma_given(c, p, h);
                lemma_then(m, h, c, hp, n, h);
            }
        }
    }
}

/// What a reader holds given back.
proof fn lemma_held_back(m: Model, held: Option<(usize, u32)>, h: Multiset<usize>)
    ensures
        balances(m, h.add(one_at(held_addr(held))), released_held(m, held), h),
{
    match held {
        Some((p, _)) => {
            lemma_given(m, p, h);
        },
        None => {
            assert(h.add(one_at(0)) =~= h);
            lemma_none(m, h);
        },
    }
}

/// A window takes a lease on what it pins and gives back what was held before, and every
/// other lease that it takes: what is held after it is what the reader holds.
pub proof fn windows_account_for_leases<C: SampleConvert>(
    v: ReaderView,
    m: Model,
    contexts: Map<u32, FillContext>,
    data: StreamView,
    r: Window,
    w: ReaderView,
    n: Model,
    new_data: StreamView,
)
    requires
        window_outcome::<C>(v, m, contexts, data, r, w, n, new_data),
    ensures
        balances(m, one_at(held_addr(v.held)), n, one_at(held_addr(w.held))),
{
    reveal(window_outcome);
    let h = one_at(held_addr(v.held));
    match window_plan(v.geometry, v.current_frame, v.direction) {
        WindowPlan::Serve { cluster, byte_offset, frame_count, needs_next } => {
            let (q, b, mid, next) = choose|q: usize, b: Model, mid: StreamView, next: bool|
                {
                    &&& #[trigger] pin_step::<C>(v, m, contexts, data, cluster, q, b, mid)
                    &&& #[trigger] serve_step::<C>(
                        v,
                        b,
                        contexts,
                        mid,
                        q,
                        needs_next,
                        cluster,
                        next,
                        w.held,
                        n,
                        new_data,
                    )
                    &&& r == served_window(
                        v,
                        q,
                        byte_offset,
                        frame_count,
                        needs_next,
                        next,
                        new_data.chunks,
                    )
                };
            let cs = v.geometry.cluster_size_bytes;
            let hq = one_at(q);
            assert(balances(m, h, b, hq)) by {
                if holds_cluster(v, cluster) {
                    lemma_none(m, h);
                } else {
                    reveal(pinned_anew);
                    let c = choose|c: Model| #[trigger]
                        acquire_fill_outcome::<C>(
                            m,
                            contexts,
                            data,
                            v.asset,
                            cluster,
                            cs,
                            q,
                            c,
                            mid,
                        ) && b == released_held(c, v.held);
                    lemma_acquire::<C>(
                        m,
                        contexts,
                        data,
                        v.asset,
                        cluster,
                        cs,
                        q,
                        c,
                        mid,
                        h,
                    );
                    assert(h.add(hq) =~= hq.add(h));
                    lemma_held_back(c, v.held, hq);
                    lemma_then(m, h, c, h.add(hq), b, hq);
                }
            }
            assert(balances(b, hq, n, hq)) by {
                if q != 0 && needs_next {
                    reveal(visited);
                    let (p, c) = choose|p: usize, c: Model|
                        {
                            &&& #[trigger] acquire_fill_outcome::<C>(
                                b,
                                contexts,
                                mid,
                                v.asset,
                                (cluster + 1) as u32,
                                cs,
                                p,
                                c,
                                new_data,
                            )
                            &&& next == (p != 0)
                            &&& n == (if p != 0 {
                                c.release(p)
                            } else {
                                c
                            })
                        };
                    lemma_acquire::<C>(
                        b,
                        contexts,
                        mid,
                        v.asset,
                        (cluster + 1) as u32,
                        cs,
                        p,
                        c,
                        new_data,
                        hq,
                    );
                    lemma_given_if(c, p, hq);
                    lemma_then(b, hq, c, hq.add(one_at(p)), n, hq);
                } else {
                    lemma_none(b, hq);
                }
            }
            lemma_then(m, h, b, hq, n, hq);
            assert(held_addr(w.held) == q);
        },
        _ => {
            lemma_none(m, h);
        },
    }
}

/// One step of a read.
proof fn lemma_step<C: SampleConvert>(
    contexts: Map<u32, FillContext>,
    num_frames: int,
    a: ReadState,
    b: ReadState,
)
    requires
        read_step::<C>(contexts, num_frames, a, b),
    ensures
        balances(
            a.tables,
            one_at(held_addr(a.reader.held)),
            b.tables,
            one_at(held_addr(b.reader.held)),
        ),
{
    reveal(read_step);
    let (w, v, x) = choose|w: Window, v: ReaderView, x: Model|
        {
            let n = frames_of(a, w, b.data.chunks, num_frames);
            &&& #[trigger] window_outcome::<C>(
                a.reader,
                a.tables,
                contexts,
                a.data,
                w,
                v,
                x,
                b.data,
            )
            &&& b.reader == advanced_reader(v, n as u32)
            &&& b.tables == (if b.reader.held == v.held {
                x
            } else {
                released_held(x, v.held)
            })
        };
    windows_account_for_leases::<C>(a.reader, a.tables, contexts, a.data, w, v, x, b.data);
    if b.reader.held != v.held {
        let h = one_at(held_addr(v.held));
        let none = Multiset::<usize>::empty();
        assert(b.reader.held is None);
        assert(none.add(h) =~= h);
        lemma_held_back(x, v.held, none);
        lemma_then(
            a.tables,
            one_at(held_addr(a.reader.held)),
            x,
            h,
            b.tables,
            none,
        );
    }
}

/// The first steps of a read.
proof fn lemma_steps<C: SampleConvert>(
    contexts: Map<u32, FillContext>,
    num_frames: int,
    t: Seq<ReadState>,
    k: int,
)
    requires
        0 <= k < t.len(),
        read_steps::<C>(contexts, num_frames, t),
    ensures
        balances(
            t[0].tables,
            one_at(held_addr(t[0].reader.held)),
            t[k].tables,
            one_at(held_addr(t[k].reader.held)),
        ),
    decreases k,
{
    if k == 0 {
        lemma_none(t[0].tables, one_at(held_addr(t[0].reader.held)));
    } else {
        lemma_steps::<C>(contexts, num_frames, t, k - 1);
        reveal(read_steps);
        assert(read_step::<C>(contexts, num_frames, t[k - 1], t[k - 1 + 1]));
        lemma_step::<C>(contexts, num_frames, t[k - 1], t[k]);
        lemma_then(
            t[0].tables,
            one_at(held_addr(t[0].reader.held)),
            t[k - 1].tables,
            one_at(held_addr(t[k - 1].reader.held)),
            t[k].tables,
            one_at(held_addr(t[k].reader.held)),
        );
    }
}

/// Every lease that a read takes it gives back, and it gives back no other. This holds of
/// any tables, of any answers, and however full the counters are.
pub proof fn reads_give_back_what_they_take<C: SampleConvert>(
    m: Model,
    contexts: Map<u32, FillContext>,
    data: StreamView,
    asset: u32,
    start_frame: u64,
    num_frames: u32,
    dest: Seq<u8>,
    r: u32,
    new_dest: Seq<u8>,
    n: Model,
    new_data: StreamView,
)
    requires
        read_outcome::<C>(
            m,
            contexts,
            data,
            asset,
            start_frame,
            num_frames,
            dest,
            r,
            new_dest,
            n,
            new_data,
        ),
    ensures
        balances(m, Multiset::empty(), n, Multiset::empty()),
{
    let none = Multiset::<usize>::empty();
    let geo = context_geometry(contexts[asset]);
    if !contexts.dom().contains(asset) || stride(geo) == 0 {
        lemma_none(m, none);
    } else {
        let t = choose|t: Seq<ReadState>|
            {
                &&& #[trigger] read_steps::<C>(contexts, num_frames as int, t)
                &&& t.len() > 0
                &&& t[0] == (ReadState {
                    reader: opened_reader(geo, asset, start_frame),
                    tables: m,
                    data,
                    dest,
                    written: 0,
                })
                &&& t.last().written == r
                &&& t.last().dest == new_dest
                &&& read_end::<C>(contexts, num_frames as int, t.last(), n, new_data)
            };
        let a = t.last();
        let h = one_at(held_addr(a.reader.held));
        lemma_steps::<C>(contexts, num_frames as int, t, t.len() - 1);
        reveal(read_end);
        assert(none.add(h) =~= h);
        if a.written >= num_frames {
            lemma_held_back(a.tables, a.reader.held, none);
            lemma_then(m, none, a.tables, h, n, none);
        } else {
            let (w, v, x) = choose|w: Window, v: ReaderView, x: Model|
                {
                    &&& #[trigger] window_outcome::<C>(
                        a.reader,
                        a.tables,
                        contexts,
                        a.data,
                        w,
                        v,
                        x,
                        new_data,
                    )
                    &&& frames_of(a, w, new_data.chunks, num_frames as int) == 0
                    &&& n == released_held(x, v.held)
                };
            let hv = one_at(held_addr(v.held));
            windows_account_for_leases::<C>(
                a.reader,
                a.tables,
                contexts,
                a.data,
                w,
                v,
                x,
                new_data,
            );
            assert(none.add(hv) =~= hv);
            lemma_held_back(x, v.held, none);
            lemma_then(m, none, a.tables, h, x, hv);
            lemma_then(m, none, x, hv, n, none);
        }
    }
}

} // verus!
