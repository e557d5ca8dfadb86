//! The questions to the host, one call each, and what it means that they were asked.
use crate::fill::native::{Awaited, Host, HostEvent};
use crate::resource::trace::{
    chained, goes_on, lemma_chained, lemma_chained_none, lemma_chained_one, lemma_since, since,
    Reply,
};
use vstd::prelude::*;

verus! {

/// Reads from the card at once.
pub fn ask_efatfs_read_at<H: Host>(
    h: &mut H,
    handle: u32,
    byte_offset: u32,
    count: u32,
) -> (r: Reply<H, (bool, Vec<u8>)>)
    ensures
        r.before@ == *old(h),
        r.after@ == *final(h),
        exists|c: &mut H|
            {
                &&& *c == *old(h)
                &&& *final(c) == *final(h)
                &&& #[trigger] call_ensures(H::efatfs_read_at, (c, handle, byte_offset, count), r.answer)
            },
{
    let ghost before = *h;
    let answer = h.efatfs_read_at(handle, byte_offset, count);
    let r = Reply { answer, before: Ghost(before), after: Ghost(*h) };
    assert(r.answer == answer);
    r
}

/// Reads from the card through the host's task.
pub fn ask_efatfs_read_awaited<H: Host>(
    h: &mut H,
    handle: u32,
    byte_offset: u32,
    count: u32,
) -> (r: Reply<H, Awaited>)
    ensures
        r.before@ == *old(h),
        r.after@ == *final(h),
        exists|c: &mut H|
            {
                &&& *c == *old(h)
                &&& *final(c) == *final(h)
                &&& #[trigger] call_ensures(H::efatfs_read_awaited, (c, handle, byte_offset, count), r.answer)
            },
{
    let ghost before = *h;
    let answer = h.efatfs_read_awaited(handle, byte_offset, count);
    let r = Reply { answer, before: Ghost(before), after: Ghost(*h) };
    assert(r.answer == answer);
    r
}

/// Asks whether the host's task makes the reads.
pub fn ask_async_active<H: Host>(h: &mut H) -> (r: Reply<H, bool>)
    ensures
        r.before@ == *old(h),
        r.after@ == *final(h),
        exists|c: &mut H|
            {
                &&& *c == *old(h)
                &&& *final(c) == *final(h)
                &&& #[trigger] call_ensures(H::async_active, (c,), r.answer)
            },
{
    let ghost before = *h;
    let answer = h.async_active();
    let r = Reply { answer, before: Ghost(before), after: Ghost(*h) };
    assert(r.answer == answer);
    r
}

/// Wakes the loader.
pub fn ask_signal_fill<H: Host>(h: &mut H) -> (r: Reply<H, ()>)
    ensures
        r.before@ == *old(h),
        r.after@ == *final(h),
        exists|c: &mut H|
            {
                &&& *c == *old(h)
                &&& *final(c) == *final(h)
                &&& #[trigger] call_ensures(H::signal_fill, (c,), r.answer)
            },
{
    let ghost before = *h;
    let answer = h.signal_fill();
    let r = Reply { answer, before: Ghost(before), after: Ghost(*h) };
    assert(r.answer == answer);
    r
}

/// The card was read at once, with the answer `ok` and `data`, by a host that was `a` before
/// and `b` after.
pub open spec fn efatfs_read_at_asked<H: Host>(
    a: H,
    handle: u32,
    byte_offset: u32,
    count: u32,
    ok: bool,
    data: Seq<u8>,
    b: H,
) -> bool {
    exists|c: &mut H, bytes: Vec<u8>|
        bytes@ == data && #[trigger] call_ensures(
            ask_efatfs_read_at::<H>,
            (c, handle, byte_offset, count),
            Reply { answer: (ok, bytes), before: Ghost(a), after: Ghost(b) },
        )
}

/// The card was to be read through the host's task, with the answer `r`, by a host that was
/// `a` before and `b` after.
pub open spec fn efatfs_read_awaited_asked<H: Host>(
    a: H,
    handle: u32,
    byte_offset: u32,
    count: u32,
    r: Awaited,
    b: H,
) -> bool {
    exists|c: &mut H| #[trigger]
        call_ensures(
            ask_efatfs_read_awaited::<H>,
            (c, handle, byte_offset, count),
            Reply { answer: r, before: Ghost(a), after: Ghost(b) },
        )
}

/// The card was read through the host's task, with the answer `ok` and `data`.
pub open spec fn waited_for<H: Host>(
    a: H,
    handle: u32,
    byte_offset: u32,
    count: u32,
    ok: bool,
    data: Seq<u8>,
    b: H,
) -> bool {
    exists|bytes: Vec<u8>|
        bytes@ == data && #[trigger] efatfs_read_awaited_asked(
            a,
            handle,
            byte_offset,
            count,
            Awaited::Read(ok, bytes),
            b,
        )
}

/// The host was asked whether its task makes the reads.
pub open spec fn async_active_asked<H: Host>(a: H, active: bool, b: H) -> bool {
    exists|c: &mut H| #[trigger]
        call_ensures(
            ask_async_active::<H>,
            (c,),
            Reply { answer: active, before: Ghost(a), after: Ghost(b) },
        )
}

/// The loader was woken.
pub open spec fn signal_fill_asked<H: Host>(a: H, b: H) -> bool {
    exists|c: &mut H| #[trigger]
        call_ensures(
            ask_signal_fill::<H>,
            (c,),
            Reply { answer: (), before: Ghost(a), after: Ghost(b) },
        )
}

/// The host was asked `e` when it was `a`, gave the answer that `e` holds, and was `b` then.
pub open spec fn host_answers<H: Host>(a: H, e: HostEvent, b: H) -> bool {
    match e {
        HostEvent::Read { awaited, handle, byte_offset, count, ok, data } => if awaited {
            waited_for(a, handle, byte_offset, count, ok, data, b)
        } else {
            efatfs_read_at_asked(a, handle, byte_offset, count, ok, data, b)
        },
        HostEvent::Later { handle, byte_offset, count, priority } => efatfs_read_awaited_asked(
            a,
            handle,
            byte_offset,
            count,
            Awaited::Later(priority),
            b,
        ),
        HostEvent::AsyncActive { active } => async_active_asked(a, active, b),
        HostEvent::Woken => signal_fill_asked(a, b),
    }
}

/// All of `ev` was asked, in this order, of a host that was `a` before and `b` after.
#[verifier::opaque]
pub open spec fn host_answered<H: Host>(a: H, ev: Seq<HostEvent>, b: H) -> bool {
    chained(|x: H, e: HostEvent, y: H| host_answers(x, e, y), a, ev, b)
}

/// History goes on from `a` to `b`, and what is new in it was asked: that led the host from
/// `before` to `after`.
pub open spec fn host_asked_since<H: Host>(
    a: Seq<HostEvent>,
    before: H,
    b: Seq<HostEvent>,
    after: H,
) -> bool {
    goes_on(a, b) && host_answered(before, since(a, b), after)
}

/// Nothing was asked.
pub proof fn lemma_host_asked_none<H: Host>(a: Seq<HostEvent>, h: H)
    ensures
        host_asked_since(a, h, a, h),
{
    reveal(host_answered);
    assert(a.take(a.len() as int) =~= a);
    assert(since(a, a) =~= Seq::<HostEvent>::empty());
    lemma_chained_none(|x: H, e: HostEvent, y: H| host_answers(x, e, y), h);
}

/// One question.
pub proof fn lemma_host_asked_one<H: Host>(
    a: Seq<HostEvent>,
    before: H,
    e: HostEvent,
    after: H,
)
    requires
        host_answers(before, e, after),
    ensures
        host_asked_since(a, before, a.push(e), after),
{
    reveal(host_answered);
    assert(a.push(e).take(a.len() as int) =~= a);
    assert(since(a, a.push(e)) =~= seq![e]);
    lemma_chained_one(|x: H, e: HostEvent, y: H| host_answers(x, e, y), before, e, after);
}

/// What is asked in two steps.
pub proof fn lemma_host_asked<H: Host>(
    a: Seq<HostEvent>,
    first: H,
    b: Seq<HostEvent>,
    second: H,
    c: Seq<HostEvent>,
    third: H,
)
    requires
        host_asked_since(a, first, b, second),
        host_asked_since(b, second, c, third),
    ensures
        host_asked_since(a, first, c, third),
{
    reveal(host_answered);
    lemma_since(a, b, c);
    lemma_chained(
        |x: H, e: HostEvent, y: H| host_answers(x, e, y),
        first,
        since(a, b),
        second,
        since(b, c),
        third,
    );
}

/// What the history says was asked was asked by a call of the host: one that can take it from
/// `a` to `b` and give that answer.
pub proof fn host_questions_are_calls<H: Host>(a: H, e: HostEvent, b: H)
    requires
        host_answers(a, e, b),
    ensures
        match e {
            HostEvent::Read { awaited, handle, byte_offset, count, ok, data } => if awaited {
                exists|c: &mut H, r: Awaited|
                    {
                        &&& *c == a
                        &&& *final(c) == b
                        &&& r is Read && r->Read_0 == ok && r->Read_1@ == data
                        &&& #[trigger] call_ensures(
                            H::efatfs_read_awaited,
                            (c, handle, byte_offset, count),
                            r,
                        )
                    }
            } else {
                exists|c: &mut H, r: (bool, Vec<u8>)|
                    {
                        &&& *c == a
                        &&& *final(c) == b
                        &&& r.0 == ok && r.1@ == data
                        &&& #[trigger] call_ensures(
                            H::efatfs_read_at,
                            (c, handle, byte_offset, count),
                            r,
                        )
                    }
            },
            HostEvent::Later { handle, byte_offset, count, priority } => exists|c: &mut H|
                *c == a && *final(c) == b && #[trigger] call_ensures(
                    H::efatfs_read_awaited,
                    (c, handle, byte_offset, count),
                    Awaited::Later(priority),
                ),
            HostEvent::AsyncActive { active } => exists|c: &mut H|
                *c == a && *final(c) == b && #[trigger] call_ensures(
                    H::async_active,
                    (c,),
                    active,
                ),
            HostEvent::Woken => exists|c: &mut H|
                *c == a && *final(c) == b && #[trigger] call_ensures(H::signal_fill, (c,), ()),
        },
{
}

} // verus!
