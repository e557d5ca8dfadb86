//! The questions to the program around the cache, one call each, and what it means that they
//! were asked.
use crate::resource::facade::Backend;
use crate::resource::trace::{
    chained, goes_on, lemma_chained, lemma_chained_none, lemma_chained_one, lemma_one, lemma_since,
    since, Event, Reply,
};
use crate::resource::types::{Build, Notice, Rank, RankInput};
use vstd::prelude::*;

verus! {

/// Asks for a rank.
pub fn ask_evict_rank<B: Backend>(b: &mut B, input: RankInput) -> (r: Reply<B, Rank>)
    ensures
        r.before@ == *old(b),
        r.after@ == *final(b),
        exists|c: &mut B|
            {
                &&& *c == *old(b)
                &&& *final(c) == *final(b)
                &&& #[trigger] call_ensures(B::evict_rank, (c, input), r.answer)
            },
{
    let ghost before = *b;
    let answer: Rank = b.evict_rank(input);
    let r = Reply { answer, before: Ghost(before), after: Ghost(*b) };
    assert(r.answer == answer);
    r
}

/// Asks for heap memory.
pub fn ask_heap_alloc<B: Backend>(b: &mut B, size: usize, align: usize) -> (r: Reply<B, usize>)
    ensures
        r.before@ == *old(b),
        r.after@ == *final(b),
        exists|c: &mut B|
            {
                &&& *c == *old(b)
                &&& *final(c) == *final(b)
                &&& #[trigger] call_ensures(B::heap_alloc, (c, size, align), r.answer)
            },
{
    let ghost before = *b;
    let answer: usize = b.heap_alloc(size, align);
    let r = Reply { answer, before: Ghost(before), after: Ghost(*b) };
    assert(r.answer == answer);
    r
}

/// Gives heap memory back.
pub fn ask_heap_free<B: Backend>(b: &mut B, p: usize) -> (r: Reply<B, ()>)
    ensures
        r.before@ == *old(b),
        r.after@ == *final(b),
        exists|c: &mut B|
            {
                &&& *c == *old(b)
                &&& *final(c) == *final(b)
                &&& #[trigger] call_ensures(B::heap_free, (c, p), r.answer)
            },
{
    let ghost before = *b;
    let answer = b.heap_free(p);
    let r = Reply { answer, before: Ghost(before), after: Ghost(*b) };
    assert(r.answer == answer);
    r
}

/// Asks for a slot of the slab.
pub fn ask_slab_acquire<B: Backend>(b: &mut B, slab: usize) -> (r: Reply<B, usize>)
    ensures
        r.before@ == *old(b),
        r.after@ == *final(b),
        exists|c: &mut B|
            {
                &&& *c == *old(b)
                &&& *final(c) == *final(b)
                &&& #[trigger] call_ensures(B::slab_acquire, (c, slab), r.answer)
            },
{
    let ghost before = *b;
    let answer: usize = b.slab_acquire(slab);
    let r = Reply { answer, before: Ghost(before), after: Ghost(*b) };
    assert(r.answer == answer);
    r
}

/// Gives a slot back to the slab.
pub fn ask_slab_release<B: Backend>(b: &mut B, slab: usize, p: usize) -> (r: Reply<B, bool>)
    ensures
        r.before@ == *old(b),
        r.after@ == *final(b),
        exists|c: &mut B|
            {
                &&& *c == *old(b)
                &&& *final(c) == *final(b)
                &&& #[trigger] call_ensures(B::slab_release, (c, slab, p), r.answer)
            },
{
    let ghost before = *b;
    let answer: bool = b.slab_release(slab, p);
    let r = Reply { answer, before: Ghost(before), after: Ghost(*b) };
    assert(r.answer == answer);
    r
}

/// Has a chunk rebuilt.
pub fn ask_materialize<B: Backend>(b: &mut B, build: Build, len: usize) -> (r: Reply<B, bool>)
    ensures
        r.before@ == *old(b),
        r.after@ == *final(b),
        exists|c: &mut B|
            {
                &&& *c == *old(b)
                &&& *final(c) == *final(b)
                &&& #[trigger] call_ensures(B::materialize, (c, build, len), r.answer)
            },
{
    let ghost before = *b;
    let answer: bool = b.materialize(build, len);
    let r = Reply { answer, before: Ghost(before), after: Ghost(*b) };
    assert(r.answer == answer);
    r
}

/// Has a chunk initialised.
pub fn ask_construct<B: Backend>(b: &mut B, build: Build) -> (r: Reply<B, ()>)
    ensures
        r.before@ == *old(b),
        r.after@ == *final(b),
        exists|c: &mut B|
            {
                &&& *c == *old(b)
                &&& *final(c) == *final(b)
                &&& #[trigger] call_ensures(B::construct, (c, build), r.answer)
            },
{
    let ghost before = *b;
    let answer = b.construct(build);
    let r = Reply { answer, before: Ghost(before), after: Ghost(*b) };
    assert(r.answer == answer);
    r
}

/// Tells the owner of an evicted chunk.
pub fn ask_notify<B: Backend>(b: &mut B, notice: Notice) -> (r: Reply<B, ()>)
    ensures
        r.before@ == *old(b),
        r.after@ == *final(b),
        exists|c: &mut B|
            {
                &&& *c == *old(b)
                &&& *final(c) == *final(b)
                &&& #[trigger] call_ensures(B::notify, (c, notice), r.answer)
            },
{
    let ghost before = *b;
    let answer = b.notify(notice);
    let r = Reply { answer, before: Ghost(before), after: Ghost(*b) };
    assert(r.answer == answer);
    r
}

// Each of these says what was asked of a backend that was `a` before and `b` after.

/// The rank of `input` was asked for, and `rank` was the answer.
pub open spec fn evict_rank_asked<B: Backend>(a: B, input: RankInput, rank: Rank, b: B) -> bool {
    exists|c: &mut B| #[trigger]
        call_ensures(
            ask_evict_rank::<B>,
            (c, input),
            Reply { answer: rank, before: Ghost(a), after: Ghost(b) },
        )
}

/// Heap memory was asked for, and `got` was the answer.
pub open spec fn heap_alloc_asked<B: Backend>(
    a: B,
    size: usize,
    align: usize,
    got: usize,
    b: B,
) -> bool {
    exists|c: &mut B| #[trigger]
        call_ensures(
            ask_heap_alloc::<B>,
            (c, size, align),
            Reply { answer: got, before: Ghost(a), after: Ghost(b) },
        )
}

/// The heap memory `p` was given back.
pub open spec fn heap_free_asked<B: Backend>(a: B, p: usize, b: B) -> bool {
    exists|c: &mut B| #[trigger]
        call_ensures(
            ask_heap_free::<B>,
            (c, p),
            Reply { answer: (), before: Ghost(a), after: Ghost(b) },
        )
}

/// A slot of `slab` was asked for, and `got` was the answer.
pub open spec fn slab_acquire_asked<B: Backend>(a: B, slab: usize, got: usize, b: B) -> bool {
    exists|c: &mut B| #[trigger]
        call_ensures(
            ask_slab_acquire::<B>,
            (c, slab),
            Reply { answer: got, before: Ghost(a), after: Ghost(b) },
        )
}

/// The slot `p` was given back to `slab`, and `taken` was the answer.
pub open spec fn slab_release_asked<B: Backend>(
    a: B,
    slab: usize,
    p: usize,
    taken: bool,
    b: B,
) -> bool {
    exists|c: &mut B| #[trigger]
        call_ensures(
            ask_slab_release::<B>,
            (c, slab, p),
            Reply { answer: taken, before: Ghost(a), after: Ghost(b) },
        )
}

/// A chunk was to be rebuilt, and `ok` was the answer.
pub open spec fn materialize_asked<B: Backend>(
    a: B,
    build: Build,
    len: usize,
    ok: bool,
    b: B,
) -> bool {
    exists|c: &mut B| #[trigger]
        call_ensures(
            ask_materialize::<B>,
            (c, build, len),
            Reply { answer: ok, before: Ghost(a), after: Ghost(b) },
        )
}

/// A chunk was initialised.
pub open spec fn construct_asked<B: Backend>(a: B, build: Build, b: B) -> bool {
    exists|c: &mut B| #[trigger]
        call_ensures(
            ask_construct::<B>,
            (c, build),
            Reply { answer: (), before: Ghost(a), after: Ghost(b) },
        )
}

/// The owner of an evicted chunk was told.
pub open spec fn notify_asked<B: Backend>(a: B, notice: Notice, b: B) -> bool {
    exists|c: &mut B| #[trigger]
        call_ensures(
            ask_notify::<B>,
            (c, notice),
            Reply { answer: (), before: Ghost(a), after: Ghost(b) },
        )
}

/// The backend was asked `e` when it was `a`, gave the answer that `e` holds, and was `b` then.
pub open spec fn answers<B: Backend>(a: B, e: Event, b: B) -> bool {
    match e {
        Event::Ranked { input, rank } => evict_rank_asked(a, input, rank, b),
        Event::HeapAlloc { size, align, got } => heap_alloc_asked(a, size, align, got, b),
        Event::HeapFree { p } => heap_free_asked(a, p, b),
        Event::SlabAcquire { slab, got } => slab_acquire_asked(a, slab, got, b),
        Event::SlabRelease { slab, p, taken } => slab_release_asked(a, slab, p, taken, b),
        Event::Materialize { build, len, ok } => materialize_asked(a, build, len, ok, b),
        Event::Construct { build } => construct_asked(a, build, b),
        Event::Notify { notice } => notify_asked(a, notice, b),
    }
}

/// All of `ev` was asked, in this order, of a backend that was `a` before and `b` after.
#[verifier::opaque]
pub open spec fn answered<B: Backend>(a: B, ev: Seq<Event>, b: B) -> bool {
    chained(|x: B, e: Event, y: B| answers(x, e, y), a, ev, b)
}

/// History goes on from `a` to `b`, and what is new in it was asked: that led the backend
/// from `before` to `after`.
pub open spec fn asked_since<B: Backend>(
    a: Seq<Event>,
    before: B,
    b: Seq<Event>,
    after: B,
) -> bool {
    goes_on(a, b) && answered(before, since(a, b), after)
}

/// Nothing was asked.
pub proof fn lemma_asked_none<B: Backend>(a: Seq<Event>, b: B)
    ensures
        asked_since(a, b, a, b),
{
    reveal(answered);
    lemma_one(a, Event::HeapFree { p: 0 });
    assert(since(a, a) =~= Seq::<Event>::empty());
    lemma_chained_none(|x: B, e: Event, y: B| answers(x, e, y), b);
}

/// One question.
pub proof fn lemma_asked_one<B: Backend>(a: Seq<Event>, before: B, e: Event, after: B)
    requires
        answers(before, e, after),
    ensures
        asked_since(a, before, a.push(e), after),
{
    reveal(answered);
    lemma_one(a, e);
    lemma_chained_one(|x: B, e: Event, y: B| answers(x, e, y), before, e, after);
}

/// What is asked in two steps.
pub proof fn lemma_asked<B: Backend>(
    a: Seq<Event>,
    first: B,
    b: Seq<Event>,
    second: B,
    c: Seq<Event>,
    third: B,
)
    requires
        asked_since(a, first, b, second),
        asked_since(b, second, c, third),
    ensures
        asked_since(a, first, c, third),
{
    reveal(answered);
    lemma_since(a, b, c);
    lemma_chained(
        |x: B, e: Event, y: B| answers(x, e, y),
        first,
        since(a, b),
        second,
        since(b, c),
        third,
    );
}

/// What the history says was asked was asked by a call of the backend: one that can take it
/// from `a` to `b` and give that answer.
pub proof fn questions_are_calls<B: Backend>(a: B, e: Event, b: B)
    requires
        answers(a, e, b),
    ensures
        match e {
            Event::Ranked { input, rank } => exists|c: &mut B|
                *c == a && *final(c) == b && #[trigger] call_ensures(
                    B::evict_rank,
                    (c, input),
                    rank,
                ),
            Event::HeapAlloc { size, align, got } => exists|c: &mut B|
                *c == a && *final(c) == b && #[trigger] call_ensures(
                    B::heap_alloc,
                    (c, size, align),
                    got,
                ),
            Event::HeapFree { p } => exists|c: &mut B|
                *c == a && *final(c) == b && #[trigger] call_ensures(B::heap_free, (c, p), ()),
            Event::SlabAcquire { slab, got } => exists|c: &mut B|
                *c == a && *final(c) == b && #[trigger] call_ensures(
                    B::slab_acquire,
                    (c, slab),
                    got,
                ),
            Event::SlabRelease { slab, p, taken } => exists|c: &mut B|
                *c == a && *final(c) == b && #[trigger] call_ensures(
                    B::slab_release,
                    (c, slab, p),
                    taken,
                ),
            Event::Materialize { build, len, ok } => exists|c: &mut B|
                *c == a && *final(c) == b && #[trigger] call_ensures(
                    B::materialize,
                    (c, build, len),
                    ok,
                ),
            Event::Construct { build } => exists|c: &mut B|
                *c == a && *final(c) == b && #[trigger] call_ensures(B::construct, (c, build), ()),
            Event::Notify { notice } => exists|c: &mut B|
                *c == a && *final(c) == b && #[trigger] call_ensures(B::notify, (c, notice), ()),
        },
{
}

} // verus!
