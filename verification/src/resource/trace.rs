//! What the cache asks of the program around it, in which order, and what it makes of the
//! answers.
use crate::resource::facade::after_evict_scan;
use crate::resource::manager::build_of;
use crate::resource::model::{asset_notice, Model};
use crate::resource::types::{Build, Notice, Rank, RankInput, Stats};
use vstd::prelude::*;

verus! {

/// Something that was asked of the program around the cache, and the answer.
pub enum Event {
    Ranked { input: RankInput, rank: Rank },
    HeapAlloc { size: usize, align: usize, got: usize },
    HeapFree { p: usize },
    SlabAcquire { slab: usize, got: usize },
    SlabRelease { slab: usize, p: usize, taken: bool },
    Materialize { build: Build, len: usize, ok: bool },
    Construct { build: Build },
    Notify { notice: Notice },
}

/// What was asked between the histories `a` and `b`.
pub open spec fn since<A>(a: Seq<A>, b: Seq<A>) -> Seq<A> {
    b.skip(a.len() as int)
}

/// History goes on from `a` to `b`.
pub open spec fn goes_on<A>(a: Seq<A>, b: Seq<A>) -> bool {
    a.len() <= b.len() && b.take(a.len() as int) == a
}

/// What is asked in two steps.
pub proof fn lemma_since<A>(a: Seq<A>, b: Seq<A>, c: Seq<A>)
    requires
        goes_on(a, b),
        goes_on(b, c),
    ensures
        goes_on(a, c),
        since(a, c) == since(a, b) + since(b, c),
        since(a, c).take(since(a, b).len() as int) == since(a, b),
        since(a, c).skip(since(a, b).len() as int) == since(b, c),
{
    assert(c.take(a.len() as int) =~= a) by {
        assert forall|i: int| 0 <= i < a.len() implies c[i] == a[i] by {
            assert(b.take(a.len() as int)[i] == b[i]);
            assert(c.take(b.len() as int)[i] == c[i]);
        }
    }
    assert(since(a, c) =~= since(a, b) + since(b, c)) by {
        assert forall|i: int| 0 <= i < since(a, b).len() implies since(a, c)[i] == since(
            a,
            b,
        )[i] by {
            assert(c.take(b.len() as int)[i + a.len()] == c[i + a.len()]);
        }
    }
    assert(since(a, c).take(since(a, b).len() as int) =~= since(a, b));
    assert(since(a, c).skip(since(a, b).len() as int) =~= since(b, c));
}

/// One question more.
pub proof fn lemma_one(a: Seq<Event>, e: Event)
    ensures
        goes_on(a, a.push(e)),
        since(a, a.push(e)) == seq![e],
        since(a, a).len() == 0,
        goes_on(a, a),
{
    assert(a.push(e).take(a.len() as int) =~= a);
    assert(since(a, a.push(e)) =~= seq![e]);
    assert(a.take(a.len() as int) =~= a);
}

// ---- who is asked ----

/// An answer, with the one who gave it as they were before and after.
pub struct Reply<S, R> {
    pub answer: R,
    pub before: Ghost<S>,
    pub after: Ghost<S>,
}

/// Each of `ev` leads from one of the states `t` to the next.
pub open spec fn links<S, E>(step: spec_fn(S, E, S) -> bool, t: Seq<S>, ev: Seq<E>) -> bool {
    &&& t.len() == ev.len() + 1
    &&& forall|i: int| 0 <= i < ev.len() ==> step(t[i], #[trigger] ev[i], t[i + 1])
}

/// What was asked in `ev`, in this order and with these answers, led from `a` to `b`.
pub open spec fn chained<S, E>(
    step: spec_fn(S, E, S) -> bool,
    a: S,
    ev: Seq<E>,
    b: S,
) -> bool {
    exists|t: Seq<S>| #[trigger] links(step, t, ev) && t[0] == a && t.last() == b
}

/// Without a question nothing changes.
pub proof fn lemma_chained_none<S, E>(step: spec_fn(S, E, S) -> bool, a: S)
    ensures
        chained(step, a, Seq::empty(), a),
{
    assert(links(step, seq![a], Seq::<E>::empty()));
}

/// One question.
pub proof fn lemma_chained_one<S, E>(step: spec_fn(S, E, S) -> bool, a: S, e: E, b: S)
    requires
        step(a, e, b),
    ensures
        chained(step, a, seq![e], b),
{
    assert(links(step, seq![a, b], seq![e]));
}

/// Questions, and then more.
pub proof fn lemma_chained<S, E>(
    step: spec_fn(S, E, S) -> bool,
    a: S,
    ev: Seq<E>,
    b: S,
    more: Seq<E>,
    c: S,
)
    requires
        chained(step, a, ev, b),
        chained(step, b, more, c),
    ensures
        chained(step, a, ev + more, c),
{
    let t = choose|t: Seq<S>| #[trigger] links(step, t, ev) && t[0] == a && t.last() == b;
    let u = choose|u: Seq<S>| #[trigger] links(step, u, more) && u[0] == b && u.last() == c;
    let w = t + u.skip(1);
    let all = ev + more;
    assert forall|i: int| 0 <= i < all.len() implies step(w[i], #[trigger] all[i], w[i + 1]) by {
        if i < ev.len() {
            assert(step(t[i], ev[i], t[i + 1]));
        } else {
            let k = i - ev.len();
            assert(step(u[k], more[k], u[k + 1]));
        }
    }
    assert(links(step, w, all));
}

// ---- freeing and evicting ----

/// The memory `p` is given back: to the slab if there is one, and to the heap if there is
/// none or it does not take it.
pub open spec fn frees(slab: usize, p: usize, ev: Seq<Event>) -> bool {
    if slab == 0 {
        ev == seq![Event::HeapFree { p }]
    } else {
        ev == seq![Event::SlabRelease { slab, p, taken: true }] || ev == seq![
            Event::SlabRelease { slab, p, taken: false },
            Event::HeapFree { p },
        ]
    }
}

/// The owner is told, if anybody is to be told, and then the memory is given back.
pub open spec fn told(notice: Notice, slab: usize, p: usize, ev: Seq<Event>) -> bool {
    if notice == Notice::Silent {
        frees(slab, p, ev)
    } else {
        ev.len() > 0 && ev[0] == (Event::Notify { notice }) && frees(slab, p, ev.skip(1))
    }
}

/// The rank of each candidate among the first `k` slots is asked for, in slot order.
pub open spec fn ranking(m: Model, ranks: Seq<Rank>, k: nat) -> Seq<Event>
    decreases k,
{
    if k == 0 {
        Seq::empty()
    } else {
        let r = ranking(m, ranks, (k - 1) as nat);
        if m.candidate(k - 1) {
            r.push(Event::Ranked { input: m.rank_input(k - 1), rank: ranks[k - 1] })
        } else {
            r
        }
    }
}

/// Without a candidate no rank is asked for.
pub proof fn lemma_no_ranking(m: Model, ranks: Seq<Rank>, k: nat)
    requires
        k <= m.chunks.len(),
        nothing_to_evict(m),
    ensures
        ranking(m, ranks, k).len() == 0,
    decreases k,
{
    if k > 0 {
        lemma_no_ranking(m, ranks, (k - 1) as nat);
        assert(!m.candidate(k - 1));
    }
}

/// Only the ranks of the first `k` slots matter.
pub proof fn lemma_ranking_same(m: Model, r: Seq<Rank>, s: Seq<Rank>, k: nat)
    requires
        k <= r.len() <= s.len(),
        forall|i: int| 0 <= i < r.len() ==> r[i] == s[i],
    ensures
        ranking(m, r, k) == ranking(m, s, k),
    decreases k,
{
    if k > 0 {
        lemma_ranking_same(m, r, s, (k - 1) as nat);
    }
}

/// No chunk may be evicted.
pub open spec fn nothing_to_evict(m: Model) -> bool {
    forall|i: int| 0 <= i < m.chunks.len() ==> !#[trigger] m.candidate(i)
}

/// Slot `i` is chosen by the ranks that are asked for, its owner is told, and its memory is
/// given back.
pub open spec fn evicts(m: Model, ranks: Seq<Rank>, i: int, ev: Seq<Event>) -> bool {
    let asked = ranking(m, ranks, m.chunks.len());
    let c = m.chunks[i];
    &&& m.victim(ranks, None, Some(i))
    &&& asked.len() <= ev.len()
    &&& ev.take(asked.len() as int) == asked
    &&& told(m.notice(i), m.slab_of(c.asset), c.backing, ev.skip(asked.len() as int))
}

/// One eviction leads from `m` to `n`.
#[verifier::opaque]
pub open spec fn evict_step(m: Model, ev: Seq<Event>, n: Model) -> bool {
    exists|ranks: Seq<Rank>, i: int| #[trigger]
        evicts(m, ranks, i, ev) && n == after_evict_scan(m).evicted(i)
}

// ---- reserving ----

/// Memory of `size` bytes is asked for, from the slab if there is one; `p` is the answer.
pub open spec fn asks_memory(slab: usize, size: usize, p: usize) -> Event {
    if slab != 0 {
        Event::SlabAcquire { slab, got: p }
    } else {
        Event::HeapAlloc { size, align: 16, got: p }
    }
}

/// Rounds that lead from `m` to `n`: in each memory is asked for in vain, and one chunk is
/// evicted.
pub open spec fn vain_rounds(m: Model, slab: usize, size: usize, ev: Seq<Event>, n: Model) -> bool
    decreases ev.len(),
{
    if ev.len() == 0 {
        n == m
    } else {
        exists|k: int, mid: Model|
            {
                &&& 0 <= k < ev.len()
                &&& vain_rounds(m, slab, size, ev.take(k), mid)
                &&& ev[k] == asks_memory(slab, size, 0)
                &&& #[trigger] evict_step(mid, ev.skip(k + 1), n)
            }
    }
}

/// One round more.
pub proof fn lemma_vain_round(
    m: Model,
    slab: usize,
    size: usize,
    before: Seq<Event>,
    mid: Model,
    ev: Seq<Event>,
    n: Model,
)
    requires
        vain_rounds(m, slab, size, before, mid),
        evict_step(mid, ev, n),
    ensures
        vain_rounds(m, slab, size, before.push(asks_memory(slab, size, 0)) + ev, n),
{
    let all = before.push(asks_memory(slab, size, 0)) + ev;
    let k = before.len() as int;
    assert(all.take(k) =~= before);
    assert(all.skip(k + 1) =~= ev);
    assert(all[k] == asks_memory(slab, size, 0));
    assert(evict_step(mid, all.skip(k + 1), n));
}

/// After a failed allocation was counted.
pub open spec fn alloc_failed(m: Model) -> Model {
    Model {
        stats: Stats { alloc_failures: m.stats.alloc_failures.wrapping_add(1), ..m.stats },
        ..m
    }
}

/// Memory for a chunk of `asset`: `p` is the last answer. While the answer is 0, if
/// `reclaim`, a chunk is evicted and the question repeated; it fails when there is nothing
/// to evict.
#[verifier::opaque]
pub open spec fn allocates(
    m: Model,
    asset: u32,
    size: usize,
    reclaim: bool,
    ev: Seq<Event>,
    p: usize,
    n: Model,
) -> bool {
    let slab = m.slab_of(asset);
    exists|mid: Model|
        {
            &&& ev.len() > 0
            &&& ev.last() == asks_memory(slab, size, p)
            &&& #[trigger] vain_rounds(m, slab, size, ev.drop_last(), mid)
            &&& !reclaim ==> ev.len() == 1
            &&& if p != 0 {
                n == mid
            } else if reclaim {
                nothing_to_evict(mid) && n == alloc_failed(after_evict_scan(mid))
            } else {
                n == alloc_failed(mid)
            }
        }
}

/// A slot for a chunk: the first free one, or else that of one chunk that is evicted.
/// Without either there is none.
#[verifier::opaque]
pub open spec fn finds_slot(m: Model, ev: Seq<Event>, slot: Option<int>, n: Model) -> bool {
    let a = m.searched_free();
    match m.free_slot() {
        Some(i) => slot == Some(i) && n == a && ev.len() == 0,
        None => if nothing_to_evict(a) {
            slot is None && n == after_evict_scan(a) && ev.len() == 0
        } else {
            exists|b: Model| #[trigger]
                evict_step(a, ev, b) && n == b.searched_free() && slot == b.free_slot() && slot
                    is Some
        },
    }
}

/// A slot and memory for a chunk of `asset`: `p` is the memory, or 0 if there is no slot or
/// no memory.
#[verifier::opaque]
pub open spec fn finds_room(
    m: Model,
    asset: u32,
    size: usize,
    reclaim: bool,
    ev: Seq<Event>,
    slot: Option<int>,
    p: usize,
    n: Model,
) -> bool {
    exists|k: int, b: Model|
        {
            &&& 0 <= k <= ev.len()
            &&& #[trigger] finds_slot(m, ev.take(k), slot, b)
            &&& if slot is Some {
                allocates(b, asset, size, reclaim, ev.skip(k), p, n)
            } else {
                k == ev.len() && p == 0 && n == b
            }
        }
}

/// A chunk that is not resident is requested in `m`: room is found, the chunk is put there
/// and it is constructed.
#[verifier::opaque]
pub open spec fn requests_missing(
    m: Model,
    asset: u32,
    index: u32,
    size: usize,
    reclaim: bool,
    ev: Seq<Event>,
    r: usize,
    n: Model,
) -> bool {
    let a = m.assets[asset as int];
    if r == 0 {
        exists|slot: Option<int>| #[trigger] finds_room(m, asset, size, reclaim, ev, slot, 0, n)
    } else {
        exists|slot: Option<int>, b: Model|
            {
                &&& ev.len() > 0
                &&& #[trigger] finds_room(m, asset, size, reclaim, ev.drop_last(), slot, r, b)
                &&& slot is Some
                &&& n == b.taken(slot->0, r, asset, index, size, false)
                &&& ev.last() == (Event::Construct {
                    build: build_of(a, a.source.construct->0, index, r),
                })
            }
    }
}

/// After a rebuild was counted.
pub open spec fn materialize_counted(m: Model) -> Model {
    Model { stats: Stats { materializes: m.stats.materializes.wrapping_add(1), ..m.stats }, ..m }
}

/// A chunk that is not resident is acquired in `m`: room is found, the chunk is put there,
/// and it is rebuilt, if its asset has a way to do that. If it cannot be rebuilt it is
/// dropped and its memory given back.
#[verifier::opaque]
pub open spec fn acquires_missing(
    m: Model,
    asset: u32,
    index: u32,
    size: usize,
    reclaim: bool,
    ev: Seq<Event>,
    r: usize,
    n: Model,
) -> bool {
    exists|k: int, slot: Option<int>, p: usize, b: Model|
        {
            &&& 0 <= k <= ev.len()
            &&& #[trigger] finds_room(m, asset, size, reclaim, ev.take(k), slot, p, b)
            &&& if p == 0 {
                r == 0 && n == b && k == ev.len()
            } else {
                slot is Some && builds(b, slot->0, p, asset, index, size, ev.skip(k), r, n)
            }
        }
}

/// The chunk of `(asset, index)` is put in slot `i` of `m` with memory `p`, and rebuilt.
pub open spec fn builds(
    m: Model,
    i: int,
    p: usize,
    asset: u32,
    index: u32,
    size: usize,
    ev: Seq<Event>,
    r: usize,
    n: Model,
) -> bool {
    let a = m.assets[asset as int];
    let t = m.taken(i, p, asset, index, size, true);
    match a.source.materialize {
        Some(callback) => {
            let build = build_of(a, callback, index, p);
            if r != 0 {
                &&& r == p
                &&& ev == seq![Event::Materialize { build, len: size, ok: true }]
                &&& n == materialize_counted(t)
            } else {
                &&& ev.len() > 0
                &&& ev[0] == (Event::Materialize { build, len: size, ok: false })
                &&& frees(m.slab_of(asset), p, ev.skip(1))
                &&& n == materialize_counted(t).cleared(i)
            }
        },
        None => r == p && ev.len() == 0 && n == t,
    }
}

/// After a request for `asset` was counted, the lookup that did not find `index`, and with
/// the asset's protection in force.
pub open spec fn request_begun(m: Model, asset: u32, index: u32) -> Model {
    (Model {
        stats: Stats { requests: m.stats.requests.wrapping_add(1), ..m.stats },
        ..m
    }).searched(asset, index).protecting(m.protection(asset))
}

/// The same for an acquire.
pub open spec fn acquire_begun(m: Model, asset: u32, index: u32) -> Model {
    (Model {
        stats: Stats { acquires: m.stats.acquires.wrapping_add(1), ..m.stats },
        ..m
    }).searched(asset, index).protecting(m.protection(asset))
}

/// What a request for `(asset, index)` asks, and what it makes of the answers: `r` is the
/// address that it gives. Nothing is asked if the asset is not requestable or the chunk
/// is resident.
#[verifier::opaque]
pub open spec fn request_asks(
    m: Model,
    asset: u32,
    index: u32,
    size: usize,
    reclaim: bool,
    ev: Seq<Event>,
    r: usize,
    n: Model,
) -> bool {
    if m.requestable(asset) && m.resident(asset, index) is None {
        &&& requests_missing(
            request_begun(m, asset, index),
            asset,
            index,
            size,
            reclaim,
            ev,
            r,
            n.protecting(m.protection(asset)),
        )
        &&& n.protect == m.protect
    } else {
        ev.len() == 0
    }
}

/// What acquiring `(asset, index)` asks, and what it makes of the answers.
#[verifier::opaque]
pub open spec fn acquire_asks(
    m: Model,
    asset: u32,
    index: u32,
    size: usize,
    reclaim: bool,
    ev: Seq<Event>,
    r: usize,
    n: Model,
) -> bool {
    if m.usable(asset) && m.resident(asset, index) is None {
        &&& acquires_missing(
            acquire_begun(m, asset, index),
            asset,
            index,
            size,
            reclaim,
            ev,
            r,
            n.protecting(m.protection(asset)),
        )
        &&& n.protect == m.protect
    } else {
        ev.len() == 0
    }
}

/// The block `p` is adopted in `m`: a slot is found, and the block put there.
pub open spec fn adopts(
    m: Model,
    p: usize,
    size: usize,
    cost: u32,
    ctx: usize,
    on_evict: Option<usize>,
    ev: Seq<Event>,
    r: usize,
    n: Model,
) -> bool {
    exists|slot: Option<int>, b: Model|
        {
            &&& #[trigger] finds_slot(m, ev, slot, b)
            &&& match slot {
                Some(i) => r == p && n == b.adopted(i, p, size, cost, ctx, on_evict),
                None => r == 0 && n == b,
            }
        }
}

/// The chunks of `asset` in the slots of `order` are dropped one after the other: for each
/// the owner is told, and its memory given back.
#[verifier::opaque]
pub open spec fn retires(m: Model, asset: u32, order: Seq<usize>, ev: Seq<Event>) -> bool
    decreases order.len(),
{
    if order.len() == 0 {
        ev.len() == 0
    } else {
        let c = m.chunks[order.last() as int];
        exists|k: int|
            {
                &&& 0 <= k <= ev.len()
                &&& retires(m, asset, order.drop_last(), #[trigger] ev.take(k))
                &&& told(
                    asset_notice(m.assets[asset as int], c.index),
                    m.slab_of(asset),
                    c.backing,
                    ev.skip(k),
                )
            }
    }
}

/// Nothing is dropped.
pub proof fn lemma_retires_none(m: Model, asset: u32, order: Seq<usize>, ev: Seq<Event>)
    requires
        order.len() == 0,
        ev.len() == 0,
    ensures
        retires(m, asset, order, ev),
{
    reveal(retires);
}

/// One chunk more is dropped.
pub proof fn lemma_retires_one(
    m: Model,
    asset: u32,
    order: Seq<usize>,
    i: usize,
    ev: Seq<Event>,
    last: Seq<Event>,
)
    requires
        retires(m, asset, order, ev),
        told(
            asset_notice(m.assets[asset as int], m.chunks[i as int].index),
            m.slab_of(asset),
            m.chunks[i as int].backing,
            last,
        ),
    ensures
        retires(m, asset, order.push(i), ev + last),
{
    reveal(retires);
    let o = order.push(i);
    let all = ev + last;
    let k = ev.len() as int;
    assert(o.drop_last() =~= order);
    assert(all.take(k) =~= ev);
    assert(all.skip(k) =~= last);
}

} // verus!
