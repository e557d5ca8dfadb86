//! What holds of cursors over many calls.
use crate::fill::native::{Host, Streaming};
use crate::resource::facade::{pin_token_of, token_gen, token_slot, Backend};
use crate::resource::leases::{
    leases_at, lemma_release_leases, lemma_same_leases, lemma_same_resident,
    lemma_try_acquire_leases, light,
};
use crate::resource::model::{lemma_resident, lemma_slot_at, unique_addresses, Model};
use crate::resource::trace::{chained, lemma_chained, lemma_chained_none, lemma_chained_one};
use crate::source::cursor::{
    acquire_steps, acquired, answers, closes, follows, given_back, gets, neighbour, pin_of, pinned,
    prefetch_steps, ready_steps, unpromoted, RegionOut, RegionState, SampleSource,
};
use crate::source::manager_residency::{lemma_pins_as_before, ManagerPin, ManagerResidency};
use crate::source::residency::{Get, RegionPin, Residency};
use vstd::multiset::Multiset;
use vstd::prelude::*;

verus! {

// ---- pins ----

/// Something that a cursor asks of its residency.
pub enum PinEvent<P> {
    /// A cluster was asked for, with this answer.
    Got { index: u32, priority: u32, answer: Get<P> },
    /// A pin was given back.
    Back { pin: P },
    /// A pin was asked something.
    Asked { pin: P },
}

/// `e` leads from `x` to `y`.
pub open spec fn pin_step<R: Residency>(
    x: (R, R::Store),
    e: PinEvent<R::Pin>,
    y: (R, R::Store),
) -> bool {
    match e {
        PinEvent::Got { index, priority, answer } => gets::<R>(x, index, priority, answer, y),
        PinEvent::Back { pin } => R::releases(x.0, x.1, pin, y.0, y.1),
        PinEvent::Asked { pin } => R::asks(x.0, x.1, pin, y.0, y.1),
    }
}

/// The pin of a slot, or none.
pub open spec fn one<P>(slot: Option<P>) -> Multiset<P> {
    match slot {
        Some(p) => Multiset::singleton(p),
        None => Multiset::empty(),
    }
}

/// The pins that came with answers.
pub open spec fn got<P>(ev: Seq<PinEvent<P>>) -> Multiset<P>
    decreases ev.len(),
{
    if ev.len() == 0 {
        Multiset::empty()
    } else {
        got(ev.drop_last()).add(
            match ev.last() {
                PinEvent::Got { answer, .. } => one(pin_of(answer)),
                _ => Multiset::empty(),
            },
        )
    }
}

/// The pins that were given back.
pub open spec fn back<P>(ev: Seq<PinEvent<P>>) -> Multiset<P>
    decreases ev.len(),
{
    if ev.len() == 0 {
        Multiset::empty()
    } else {
        back(ev.drop_last()).add(
            match ev.last() {
                PinEvent::Back { pin } => one(Some(pin)),
                _ => Multiset::empty(),
            },
        )
    }
}

/// The pins that a cursor holds.
pub open spec fn bag<R: Residency>(a: SampleSource<R>) -> Multiset<R::Pin> {
    one(a.spec_current()).add(one(a.spec_pending())).add(one(a.spec_prefetch()))
}

/// What is asked of the residency leads from `x` to `y`, and accounts for pins: those that
/// are held before and those that are got are those that are held after and those that are
/// given back. So each pin is in one place, or was given back once.
#[verifier::opaque]
pub open spec fn accounts<R: Residency>(
    x: (R, R::Store),
    before: Multiset<R::Pin>,
    y: (R, R::Store),
    after: Multiset<R::Pin>,
) -> bool {
    exists|ev: Seq<PinEvent<R::Pin>>|
        {
            &&& #[trigger] pin_steps::<R>(x, ev, y)
            &&& before.add(got(ev)) == after.add(back(ev))
        }
}

/// All of `ev`, in this order, leads from `x` to `y`.
pub open spec fn pin_steps<R: Residency>(
    x: (R, R::Store),
    ev: Seq<PinEvent<R::Pin>>,
    y: (R, R::Store),
) -> bool {
    chained(
        |a: (R, R::Store), e: PinEvent<R::Pin>, b: (R, R::Store)| pin_step::<R>(a, e, b),
        x,
        ev,
        y,
    )
}

proof fn lemma_sums<P>(a: Seq<PinEvent<P>>, b: Seq<PinEvent<P>>)
    ensures
        got(a + b) =~= got(a).add(got(b)),
        back(a + b) =~= back(a).add(back(b)),
    decreases b.len(),
{
    if b.len() == 0 {
        assert(a + b =~= a);
    } else {
        lemma_sums(a, b.drop_last());
        assert((a + b).drop_last() =~= a + b.drop_last());
        assert((a + b).last() == b.last());
    }
}

proof fn lemma_accounts_none<R: Residency>(x: (R, R::Store), h: Multiset<R::Pin>)
    ensures
        accounts::<R>(x, h, x, h),
{
    reveal(accounts);
    let ev = Seq::<PinEvent<R::Pin>>::empty();
    lemma_chained_none(
        |a: (R, R::Store), e: PinEvent<R::Pin>, b: (R, R::Store)| pin_step::<R>(a, e, b),
        x,
    );
    assert(pin_steps::<R>(x, ev, x));
}

proof fn lemma_accounts_one<R: Residency>(
    x: (R, R::Store),
    before: Multiset<R::Pin>,
    e: PinEvent<R::Pin>,
    y: (R, R::Store),
    after: Multiset<R::Pin>,
)
    requires
        pin_step::<R>(x, e, y),
        before.add(got(seq![e])) =~= after.add(back(seq![e])),
    ensures
        accounts::<R>(x, before, y, after),
{
    reveal(accounts);
    lemma_chained_one(
        |a: (R, R::Store), e: PinEvent<R::Pin>, b: (R, R::Store)| pin_step::<R>(a, e, b),
        x,
        e,
        y,
    );
    assert(pin_steps::<R>(x, seq![e], y));
}

proof fn lemma_single<P>(e: PinEvent<P>)
    ensures
        got(seq![e]) =~= match e {
            PinEvent::Got { answer, .. } => one(pin_of(answer)),
            _ => Multiset::empty(),
        },
        back(seq![e]) =~= match e {
            PinEvent::Back { pin } => one(Some(pin)),
            _ => Multiset::empty(),
        },
{
    assert(seq![e].drop_last() =~= Seq::<PinEvent<P>>::empty());
    reveal_with_fuel(got, 2);
    reveal_with_fuel(back, 2);
}

proof fn lemma_accounts<R: Residency>(
    x: (R, R::Store),
    a: Multiset<R::Pin>,
    y: (R, R::Store),
    b: Multiset<R::Pin>,
    z: (R, R::Store),
    c: Multiset<R::Pin>,
)
    requires
        accounts::<R>(x, a, y, b),
        accounts::<R>(y, b, z, c),
    ensures
        accounts::<R>(x, a, z, c),
{
    reveal(accounts);
    let e = choose|ev: Seq<PinEvent<R::Pin>>|
        #[trigger] pin_steps::<R>(x, ev, y) && a.add(got(ev)) == b.add(back(ev));
    let f = choose|ev: Seq<PinEvent<R::Pin>>|
        #[trigger] pin_steps::<R>(y, ev, z) && b.add(got(ev)) == c.add(back(ev));
    lemma_chained(
        |a: (R, R::Store), e: PinEvent<R::Pin>, b: (R, R::Store)| pin_step::<R>(a, e, b),
        x,
        e,
        y,
        f,
        z,
    );
    lemma_sums(e, f);
    assert(pin_steps::<R>(x, e + f, z));
    assert(a.add(got(e + f)) =~= c.add(back(e + f))) by {
        assert forall|p: R::Pin| #[trigger] a.add(got(e + f)).count(p) == c.add(
            back(e + f),
        ).count(p) by {
            assert(a.add(got(e)).count(p) == b.add(back(e)).count(p));
            assert(b.add(got(f)).count(p) == c.add(back(f)).count(p));
        }
    }
}

/// A slot's pin given back.
proof fn lemma_give_back<R: Residency>(
    x: (R, R::Store),
    slot: Option<R::Pin>,
    y: (R, R::Store),
    rest: Multiset<R::Pin>,
)
    requires
        given_back::<R>(x, slot, y),
    ensures
        accounts::<R>(x, rest.add(one(slot)), y, rest),
{
    match slot {
        Some(pin) => {
            let e = PinEvent::Back { pin };
            lemma_single(e);
            lemma_accounts_one::<R>(x, rest.add(one(slot)), e, y, rest);
        },
        None => {
            assert(rest.add(one(slot)) =~= rest);
            lemma_accounts_none::<R>(x, rest);
        },
    }
}

/// A pin asked something.
proof fn lemma_ask<R: Residency>(
    x: (R, R::Store),
    pin: R::Pin,
    y: (R, R::Store),
    h: Multiset<R::Pin>,
)
    requires
        R::asks(x.0, x.1, pin, y.0, y.1),
    ensures
        accounts::<R>(x, h, y, h),
{
    let e = PinEvent::Asked { pin };
    lemma_single(e);
    lemma_accounts_one::<R>(x, h, e, y, h);
}

/// A cluster asked for.
proof fn lemma_get<R: Residency>(
    x: (R, R::Store),
    index: u32,
    priority: u32,
    g: Get<R::Pin>,
    y: (R, R::Store),
    h: Multiset<R::Pin>,
)
    requires
        gets::<R>(x, index, priority, g, y),
    ensures
        accounts::<R>(x, h, y, h.add(one(pin_of(g)))),
{
    let e = PinEvent::Got { index, priority, answer: g };
    lemma_single(e);
    lemma_accounts_one::<R>(x, h, e, y, h.add(one(pin_of(g))));
}

/// The neighbour prefetched.
proof fn lemma_prefetch<R: Residency>(
    x: (R, R::Store),
    before: Option<R::Pin>,
    next: Option<u32>,
    priority: u32,
    after: Option<R::Pin>,
    y: (R, R::Store),
    rest: Multiset<R::Pin>,
)
    requires
        prefetch_steps::<R>(x, before, next, priority, after, y),
    ensures
        accounts::<R>(x, rest.add(one(before)), y, rest.add(one(after))),
{
    if next is None || next->0 >= x.0.clusters() || pinned(before) == next {
        lemma_accounts_none::<R>(x, rest.add(one(before)));
    } else {
        let (mid, g) = choose|mid: (R, R::Store), g: Get<R::Pin>|
            {
                &&& #[trigger] given_back::<R>(x, before, mid)
                &&& #[trigger] gets::<R>(mid, next->0, priority, g, y)
                &&& after == pin_of(g)
            };
        lemma_give_back::<R>(x, before, mid, rest);
        lemma_get::<R>(mid, next->0, priority, g, y, rest);
        lemma_accounts::<R>(x, rest.add(one(before)), mid, rest, y, rest.add(one(after)));
    }
}

/// The pin that is `current` after a call is the one before it, or it was ready when it was
/// put there.
pub open spec fn current_was_ready<R: Residency>(
    a: SampleSource<R>,
    store: R::Store,
    index: u32,
    priority: u32,
    b: SampleSource<R>,
) -> bool {
    ||| b.spec_current() == a.spec_current()
    ||| {
        &&& pinned(a.spec_prefetch()) == Some(index)
        &&& b.spec_current() == a.spec_prefetch()
        &&& a.spec_residency().ready(&store, &a.spec_prefetch()->0)
    }
    ||| b.spec_current() is Some && exists|x: (R, R::Store)| #[trigger]
        gets::<R>(
            (a.spec_residency(), store),
            index,
            priority,
            Get::Ready(b.spec_current()->0),
            x,
        )
}

/// Acquiring a cluster accounts for pins, and makes a pin `current` only if it is ready.
pub proof fn acquiring_accounts_for_pins<R: Residency>(
    a: SampleSource<R>,
    store: R::Store,
    index: u32,
    direction: i8,
    priority: u32,
    r: (RegionState, Option<RegionOut>),
    b: SampleSource<R>,
    t: R::Store,
)
    requires
        acquired(a, store, index, direction, r, b),
        acquire_steps(a, store, index, direction, priority, r, b, t),
    ensures
        accounts::<R>((a.spec_residency(), store), bag(a), (b.spec_residency(), t), bag(b)),
        current_was_ready(a, store, index, priority, b),
{
    reveal(acquire_steps);
    let (g, x1, x2) = choose|g: Get<R::Pin>, x1: (R, R::Store), x2: (R, R::Store)|
        {
            &&& #[trigger] answers(a, store, index, priority, g, x1)
            &&& #[trigger] given_back::<R>(x1, a.spec_pending(), x2)
            &&& follows(a, index, direction, priority, g, x2, r, b, t)
        };
    let x0 = (a.spec_residency(), store);
    let y = (b.spec_residency(), t);
    let cur = one(a.spec_current());
    let pend = one(a.spec_pending());
    let kept = unpromoted::<R>(a.spec_prefetch(), index);
    let new = one(pin_of(g));
    let h1 = cur.add(one(kept)).add(new).add(pend);
    let h2 = cur.add(one(kept)).add(new);
    // The answer.
    if pinned(a.spec_prefetch()) == Some(index) {
        assert(bag(a) =~= h1);
        lemma_ask::<R>(x0, a.spec_prefetch()->0, x1, bag(a));
    } else {
        assert(gets::<R>(x0, index, priority, g, x1));
        lemma_get::<R>(x0, index, priority, g, x1, bag(a));
        assert(bag(a).add(new) =~= h1);
    }
    // `pending` given back.
    lemma_give_back::<R>(x1, a.spec_pending(), x2, h2);
    lemma_accounts::<R>(x0, bag(a), x1, h1, x2, h2);
    match g {
        Get::Unavailable => {
            assert(bag(b) =~= h2);
        },
        Get::Loading(pin) => {
            assert(bag(b) =~= h2);
        },
        Get::Ready(pin) => {
            let (x3, x4) = choose|x3: (R, R::Store), x4: (R, R::Store)| #[trigger]
                ready_steps(a, index, direction, priority, pin, r.1->0, x2, x3, x4, b, t);
            lemma_ask::<R>(x2, pin, x3, h2);
            lemma_accounts::<R>(x0, bag(a), x2, h2, x3, h2);
            let now = one(b.spec_current());
            let h4 = now.add(one(kept));
            if pinned(a.spec_current()) == Some(index) {
                assert(h2 =~= h4.add(one(Some(pin))));
                assert(given_back::<R>(x3, Some(pin), x4));
                lemma_give_back::<R>(x3, Some(pin), x4, h4);
            } else {
                assert(h2 =~= h4.add(cur));
                lemma_give_back::<R>(x3, a.spec_current(), x4, h4);
            }
            lemma_accounts::<R>(x0, bag(a), x3, h2, x4, h4);
            lemma_prefetch::<R>(
                x4,
                kept,
                neighbour(index, direction),
                priority,
                b.spec_prefetch(),
                y,
                now,
            );
            let h5 = now.add(one(b.spec_prefetch()));
            lemma_accounts::<R>(x0, bag(a), x4, h4, y, h5);
            assert(bag(b) =~= h5);
        },
    }
}

/// Closing a cursor gives each of its pins back.
pub proof fn closing_accounts_for_pins<R: Residency>(
    a: SampleSource<R>,
    store: R::Store,
    z: (R, R::Store),
)
    requires
        closes(a, store, z),
    ensures
        accounts::<R>((a.spec_residency(), store), bag(a), z, Multiset::empty()),
{
    let w = (a.spec_residency(), store);
    let (x, y) = choose|x: (R, R::Store), y: (R, R::Store)|
        {
            &&& #[trigger] given_back::<R>(w, a.spec_current(), x)
            &&& #[trigger] given_back::<R>(x, a.spec_pending(), y)
            &&& given_back::<R>(y, a.spec_prefetch(), z)
        };
    let next = one(a.spec_prefetch());
    let two = next.add(one(a.spec_pending()));
    let none = Multiset::<R::Pin>::empty();
    assert(bag(a) =~= two.add(one(a.spec_current())));
    assert(next =~= none.add(next));
    lemma_give_back::<R>(w, a.spec_current(), x, two);
    lemma_give_back::<R>(x, a.spec_pending(), y, next);
    lemma_give_back::<R>(y, a.spec_prefetch(), z, none);
    lemma_accounts::<R>(w, bag(a), x, two, y, next);
    lemma_accounts::<R>(w, bag(a), y, next, z, none);
}

// ---- sequences of calls ----

/// One call of a cursor, and its result.
pub struct AcquireCall {
    pub index: u32,
    pub direction: i8,
    pub priority: u32,
    pub result: (RegionState, Option<RegionOut>),
}

/// A cursor, with its store, between calls.
#[verifier::reject_recursive_types(R)]
pub struct CursorAt<R: Residency> {
    pub source: SampleSource<R>,
    pub store: R::Store,
}

/// The call `c` leads from `a` to `b`, in a direction, and the residency does not say of the
/// cluster that is being read that it is loading.
pub open spec fn plays<R: Residency>(a: CursorAt<R>, c: AcquireCall, b: CursorAt<R>) -> bool {
    &&& acquired(a.source, a.store, c.index, c.direction, c.result, b.source)
    &&& acquire_steps(
        a.source,
        a.store,
        c.index,
        c.direction,
        c.priority,
        c.result,
        b.source,
        b.store,
    )
    &&& c.direction != 0
    &&& !(c.result.0 == RegionState::Loading && pinned(a.source.spec_current()) == Some(c.index))
}

/// Over any sequence of calls no two slots pin the same cluster; every pin that the residency
/// gave is held in one slot or was given back once, and so the pins that are live are those
/// that the cursor holds, three at most.
pub proof fn cursors_keep_their_slots_apart<R: Residency>(
    t: Seq<CursorAt<R>>,
    calls: Seq<AcquireCall>,
)
    requires
        t.len() == calls.len() + 1,
        forall|i: int| 0 <= i < calls.len() ==> plays(t[i], #[trigger] calls[i], t[i + 1]),
        t[0].source.distinct(),
        t[0].source.stray() == 0,
    ensures
        t.last().source.distinct(),
        t.last().source.spec_residency().live() == t.last().source.pins(),
        0 <= t.last().source.pins() <= 3,
        accounts::<R>(
            (t[0].source.spec_residency(), t[0].store),
            bag(t[0].source),
            (t.last().source.spec_residency(), t.last().store),
            bag(t.last().source),
        ),
    decreases calls.len(),
{
    let first = t[0];
    let x0 = (first.source.spec_residency(), first.store);
    if calls.len() == 0 {
        lemma_accounts_none::<R>(x0, bag(first.source));
    } else {
        let n = calls.len() - 1;
        let c = calls[n];
        let before = t.drop_last();
        assert forall|i: int| 0 <= i < calls.drop_last().len() implies plays(
            before[i],
            #[trigger] calls.drop_last()[i],
            before[i + 1],
        ) by {
            assert(plays(t[i], calls[i], t[i + 1]));
        }
        cursors_keep_their_slots_apart::<R>(before, calls.drop_last());
        let a = t[n];
        let b = t[n + 1];
        assert(plays(a, c, b));
        acquiring_accounts_for_pins::<R>(
            a.source,
            a.store,
            c.index,
            c.direction,
            c.priority,
            c.result,
            b.source,
            b.store,
        );
        lemma_accounts::<R>(
            x0,
            bag(first.source),
            (a.source.spec_residency(), a.store),
            bag(a.source),
            (b.source.spec_residency(), b.store),
            bag(b.source),
        );
    }
}

// ---- repeated calls ----

/// The cluster of `out` is still ready: asked for it at `(r, s)`, the residency gives it ready,
/// at the same address and under the same token.
pub open spec fn still_ready<R: Residency>(
    r: R,
    s: R::Store,
    priority: u32,
    out: RegionOut,
) -> bool {
    forall|g: Get<R::Pin>, x: (R, R::Store)| #[trigger]
        gets::<R>((r, s), out.region_index, priority, g, x) ==> {
            &&& g is Ready
            &&& g->Ready_0.spec_payload() == out.payload_base
            &&& x.0.token_of(&x.1, &g->Ready_0) == out.lease
        }
}

/// Over any residency: acquiring a cluster that the call before gave as ready, while it is
/// still ready and its neighbour is prefetched or out of range, gives the same region again,
/// under the same lease. No pin is left over, and the neighbour stays prefetched.
pub proof fn acquiring_again_gives_the_same_lease<R: Residency>(
    a: SampleSource<R>,
    s: R::Store,
    index: u32,
    direction: i8,
    priority: u32,
    out: RegionOut,
    b: SampleSource<R>,
    t: R::Store,
    second: (RegionState, Option<RegionOut>),
    c: SampleSource<R>,
    u: R::Store,
)
    requires
        a.distinct(),
        direction != 0,
        acquired(a, s, index, direction, (RegionState::Ready, Some(out)), b),
        still_ready(b.spec_residency(), t, priority, out),
        ({
            let next = neighbour(index, direction);
            ||| next is None
            ||| next->0 >= b.spec_residency().clusters()
            ||| pinned(b.spec_prefetch()) == next
        }),
        acquired(b, t, index, direction, second, c),
        acquire_steps(b, t, index, direction, priority, second, c, u),
    ensures
        second == (RegionState::Ready, Some(out)),
        c.spec_current() == b.spec_current(),
        c.spec_pending() is None,
        c.spec_prefetch() == b.spec_prefetch(),
        c.spec_residency().live() == b.spec_residency().live(),
        bag(c) == bag(b),
{
    reveal(acquire_steps);
    let (g, x1, x2) = choose|g: Get<R::Pin>, x1: (R, R::Store), x2: (R, R::Store)|
        {
            &&& #[trigger] answers(b, t, index, priority, g, x1)
            &&& #[trigger] given_back::<R>(x1, b.spec_pending(), x2)
            &&& follows(b, index, direction, priority, g, x2, second, c, u)
        };
    assert(gets::<R>((b.spec_residency(), t), index, priority, g, x1));
    let pin = g->Ready_0;
    let (x3, x4) = choose|x3: (R, R::Store), x4: (R, R::Store)| #[trigger]
        ready_steps(b, index, direction, priority, pin, second.1->0, x2, x3, x4, c, u);
    assert(second.1->0 == out);
}

/// The cursor `a` reads the region `out`: its cluster is `current`, it is ready at the
/// region's address, and the region's lease is the token of what is there.
pub open spec fn reads<B: Backend, H: Host>(
    a: SampleSource<ManagerResidency<B, H>>,
    s: Streaming<B, H>,
    out: RegionOut,
) -> bool {
    let index = out.region_index;
    let asset = a.spec_residency().spec_asset();
    &&& pinned(a.spec_current()) == Some(index)
    &&& a.spec_pending() is None
    &&& pinned(a.spec_prefetch()) != Some(index)
    &&& index < a.spec_residency().clusters()
    &&& out.payload_base != 0
    &&& out.payload_base == s.res@.try_acquire_result(asset, index)
    &&& out.lease == pin_token_of(s.res@, out.payload_base)
    &&& out.resident_bytes == a.spec_geo().resident(index as int)
}

/// A lease that is taken on a ready chunk, and given back, leaves everything in its place.
proof fn lemma_taken_and_given_back(m: Model, asset: u32, index: u32)
    requires
        m.consistent(),
        m.try_acquire_result(asset, index) != 0,
    ensures
        ({
            let p = m.try_acquire_result(asset, index);
            let n = m.try_acquire(asset, index);
            let d = n.searched_ptr(p).release(p);
            &&& pin_token_of(n, p) == pin_token_of(m, p)
            &&& pin_token_of(d, p) == pin_token_of(m, p)
            &&& d.try_acquire_result(asset, index) == p
            &&& unique_addresses(m) && light(m, 1) ==> forall|q: usize|
                q != 0 ==> #[trigger] leases_at(d, q) == leases_at(m, q)
        }),
{
    let p = m.try_acquire_result(asset, index);
    let n = m.try_acquire(asset, index);
    let c = n.searched_ptr(p);
    let d = c.release(p);
    lemma_resident(m, asset, index);
    lemma_slot_at(n, p);
    lemma_slot_at(c, p);
    lemma_pins_as_before(m, n);
    lemma_pins_as_before(m, d);
    lemma_same_resident(m, d, asset, index);
    if unique_addresses(m) && light(m, 1) {
        lemma_try_acquire_leases(m, asset, index);
        lemma_same_leases(n, p, 0, 0);
        assert(leases_at(n, p) == leases_at(m, p) + 1);
        assert(leases_at(c, p) == leases_at(n, p));
        lemma_release_leases(c, p);
    }
}

/// Acquiring the cluster that is being read once more, while its neighbour is prefetched or
/// out of range, gives the same region under the same lease. No pin is left over, and the
/// neighbour stays prefetched. As long as the count of leases has room and no address is
/// in the table twice, the clusters are leased as often as before.
pub proof fn repeated_acquires_give_the_same_lease<B: Backend, H: Host>(
    a: SampleSource<ManagerResidency<B, H>>,
    s: Streaming<B, H>,
    out: RegionOut,
    direction: i8,
    priority: u32,
    r: (RegionState, Option<RegionOut>),
    b: SampleSource<ManagerResidency<B, H>>,
    t: Streaming<B, H>,
)
    requires
        s.wf(),
        reads(a, s, out),
        ({
            let next = neighbour(out.region_index, direction);
            ||| next is None
            ||| next->0 >= a.spec_residency().clusters()
            ||| pinned(a.spec_prefetch()) == next
        }),
        acquired(a, s, out.region_index, direction, r, b),
        acquire_steps(a, s, out.region_index, direction, priority, r, b, t),
    ensures
        r == (RegionState::Ready, Some(out)),
        b.spec_current() == a.spec_current(),
        b.spec_pending() is None,
        b.spec_prefetch() == a.spec_prefetch(),
        b.spec_residency().live() == a.spec_residency().live(),
        reads(b, t, out),
        unique_addresses(s.res@) && light(s.res@, 1) ==> forall|q: usize|
            q != 0 ==> #[trigger] leases_at(t.res@, q) == leases_at(s.res@, q),
{
    let index = out.region_index;
    let asset = a.spec_residency().spec_asset();
    let m = s.res@;
    let p = out.payload_base;
    s.res.lemma_wf();
    reveal(acquire_steps);
    let (g, x1, x2) = choose|
        g: Get<ManagerPin>,
        x1: (ManagerResidency<B, H>, Streaming<B, H>),
        x2: (ManagerResidency<B, H>, Streaming<B, H>),
    |
        {
            &&& #[trigger] answers(a, s, index, priority, g, x1)
            &&& #[trigger] given_back::<ManagerResidency<B, H>>(x1, a.spec_pending(), x2)
            &&& follows(a, index, direction, priority, g, x2, r, b, t)
        };
    let n = m.try_acquire(asset, index);
    assert(g is Ready && x1.1.res@ == n);
    let pin = g->Ready_0;
    assert(pin.spec_payload() == p);
    let (x3, x4) = choose|
        x3: (ManagerResidency<B, H>, Streaming<B, H>),
        x4: (ManagerResidency<B, H>, Streaming<B, H>),
    | #[trigger]
        ready_steps(a, index, direction, priority, pin, r.1->0, x2, x3, x4, b, t);
    assert(x2 == x1);
    assert(x3.1.res@ == n.searched_ptr(p));
    assert(t.res@ == n.searched_ptr(p).release(p));
    lemma_taken_and_given_back(m, asset, index);
    assert(b.spec_residency().spec_asset() == asset);
}

// ---- independent pins ----

/// An independent pin that is taken and given back through a cursor: taking it is one lease
/// more on the chunk that the token was made for, giving it back is one fewer, and then every
/// chunk is leased as often as before. With 0, or a token whose chunk is gone, neither does
/// anything to a chunk.
pub proof fn retain_and_release_balance<B: Backend, H: Host>(
    a: ManagerResidency<B, H>,
    s: Streaming<B, H>,
    token: u64,
    b: ManagerResidency<B, H>,
    t: Streaming<B, H>,
    c: ManagerResidency<B, H>,
    u: Streaming<B, H>,
)
    requires
        ManagerResidency::retains(a, s, token, b, t),
        ManagerResidency::drops(b, t, token, c, u),
    ensures
        ({
            let m = s.res@;
            let slot = token_slot(token);
            if token == 0 || !m.current(slot, token_gen(token)) {
                t.res@.chunks == m.chunks && u.res@.chunks == m.chunks
            } else {
                &&& m.chunks[slot as int].leases < u32::MAX ==> {
                    &&& t.res@.chunks[slot as int].leases == m.chunks[slot as int].leases + 1
                    &&& u.res@.chunks[slot as int].leases == m.chunks[slot as int].leases
                }
                &&& forall|j: int|
                    0 <= j < m.chunks.len() && j != slot ==> (#[trigger] t.res@.chunks[j])
                        == m.chunks[j] && u.res@.chunks[j] == m.chunks[j]
            }
        }),
{
}

} // verus!
