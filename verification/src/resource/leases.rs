//! How many leases there are on the chunk at an address, and what changes that.
use crate::resource::facade::{kept_or_evicted, newly_reserved, only_evicted, request_outcome};
use crate::resource::index::{key_bucket, lemma_key_bucket, NONE};
use crate::resource::memory::one_if;
use crate::resource::model::{
    agree, at_address, first_pos, lemma_first_pos, lemma_first_pos_is, lemma_resident,
    lemma_slot_at, numbered_with_key, unique_addresses, with_key, Model,
};
use crate::resource::types::ChunkSlot;
use vstd::prelude::*;

verus! {

/// The tables back the same addresses under the same keys.
pub open spec fn same_places(m: Model, n: Model) -> bool {
    &&& n.chains == m.chains
    &&& n.chunks.len() == m.chunks.len()
    &&& forall|i: int|
        0 <= i < m.chunks.len() ==> {
            &&& (#[trigger] n.chunks[i]).backing == m.chunks[i].backing
            &&& n.chunks[i].asset == m.chunks[i].asset
            &&& n.chunks[i].index == m.chunks[i].index
        }
}

/// Where an address is found does not depend on anything else.
pub proof fn lemma_same_slot(m: Model, n: Model, p: usize)
    requires
        same_places(m, n),
    ensures
        n.slot_at(p) == m.slot_at(p),
{
    lemma_slot_at(m, p);
    let k = first_pos(m.chunks, at_address(p)) as int;
    lemma_first_pos(m.chunks, at_address(p));
    assert forall|j: int| 0 <= j < k implies !at_address(p)(#[trigger] n.chunks[j]) by {
        assert(!at_address(p)(m.chunks[j]));
    }
    lemma_first_pos_is(n.chunks, at_address(p), k);
}

/// Nor does where a key is found.
pub proof fn lemma_same_resident(m: Model, n: Model, asset: u32, index: u32)
    requires
        m.consistent(),
        same_places(m, n),
    ensures
        n.resident(asset, index) == m.resident(asset, index),
{
    if asset == NONE {
        let p = with_key(asset, index);
        let k = first_pos(m.chunks, p) as int;
        lemma_first_pos(m.chunks, p);
        assert forall|j: int| 0 <= j < k implies !p(#[trigger] n.chunks[j]) by {
            assert(!p(m.chunks[j]));
        }
        if k < m.chunks.len() {
            assert(p(m.chunks[k]));
        }
        lemma_first_pos_is(n.chunks, p, k);
    } else {
        lemma_key_bucket(asset, index, m.chains.len());
        let b = m.bucket(asset, index);
        let c = m.chains[b];
        let p = numbered_with_key(m.chunks, asset, index);
        let q = numbered_with_key(n.chunks, asset, index);
        let k = first_pos(c, p) as int;
        lemma_first_pos(c, p);
        assert forall|j: int| 0 <= j < k implies !q(#[trigger] c[j]) by {
            assert(!p(c[j]));
            assert(0 <= m.chains[b][j] < m.chunks.len());
        }
        if k < c.len() {
            assert(p(c[k]));
            assert(0 <= m.chains[b][k] < m.chunks.len());
        }
        lemma_first_pos_is(c, q, k);
    }
}

/// The same places keep the index in agreement with the table.
pub proof fn lemma_same_agree(m: Model, n: Model)
    requires
        m.consistent(),
        same_places(m, n),
    ensures
        agree(n.chunks, n.chains),
{
    assert forall|b: int, i: int|
        0 <= b < n.chains.len() && #[trigger] n.chains[b].contains(i) implies n.chunks[i].keyed()
        && key_bucket(
        n.chunks[i].asset,
        n.chunks[i].index,
        n.chains.len(),
    ) == b by {
        let k = choose|k: int| 0 <= k < m.chains[b].len() && m.chains[b][k] == i;
        assert(0 <= m.chains[b][k] < m.chunks.len());
        assert(m.chains[b].contains(i));
    }
    assert forall|i: int| 0 <= i < n.chunks.len() && (#[trigger] n.chunks[i]).keyed() implies {
        let b = key_bucket(
            n.chunks[i].asset,
            n.chunks[i].index,
            n.chains.len(),
        );
        0 <= b < n.chains.len() && n.chains[b].contains(i)
    } by {
        assert(m.chunks[i].keyed());
    }
}

/// The tables stay consistent if chunks stay where they are and free slots stay free.
pub proof fn lemma_same_consistent(m: Model, n: Model)
    requires
        m.consistent(),
        same_places(m, n),
        n.assets == m.assets,
        forall|i: int|
            0 <= i < m.chunks.len() && m.chunks[i].backing == 0 ==> #[trigger] n.chunks[i]
                == m.chunks[i],
    ensures
        n.consistent(),
{
    lemma_same_agree(m, n);
    assert forall|i: int| 0 <= i < n.chunks.len() && (#[trigger] n.chunks[i]).backing != 0 implies (
    n.chunks[i].asset == NONE || n.chunks[i].asset < n.assets.len()) by {
        assert(m.chunks[i].backing != 0);
    }
    assert forall|i: int| 0 <= i < n.chunks.len() && (#[trigger] n.chunks[i]).backing
        == 0 implies n.chunks[i] == ChunkSlot::spec_empty() by {
        assert(m.chunks[i].backing == 0);
    }
}

/// The leases on the chunk at `p`; none if there is no chunk.
pub open spec fn leases_at(m: Model, p: usize) -> int {
    match m.slot_at(p) {
        Some(i) => m.chunks[i].leases as int,
        None => 0,
    }
}

/// No chunk has more than `u32::MAX - k` leases.
pub open spec fn light(m: Model, k: int) -> bool {
    forall|p: usize| #[trigger] leases_at(m, p) <= u32::MAX - k
}

/// Chunks are where they were, and as ready as they were.
pub open spec fn quiet(m: Model, n: Model) -> bool {
    &&& same_places(m, n)
    &&& n.assets == m.assets
    &&& forall|i: int| 0 <= i < m.chunks.len() ==> (#[trigger] n.chunks[i]).ready == m.chunks[i].ready
}

/// Slot `i` is where its address is found.
pub proof fn lemma_leases_at(m: Model, i: int)
    requires
        unique_addresses(m),
        0 <= i < m.chunks.len(),
        m.chunks[i].backing != 0,
    ensures
        m.slot_at(m.chunks[i].backing) == Some(i),
        leases_at(m, m.chunks[i].backing) == m.chunks[i].leases,
{
    lemma_slot_at(m, m.chunks[i].backing);
}

/// If chunks stay where they are, and only the one at `p` has `d` leases more.
pub proof fn lemma_leases_change(m: Model, n: Model, p: usize, d: int)
    requires
        unique_addresses(m),
        same_places(m, n),
        forall|i: int|
            0 <= i < m.chunks.len() && m.chunks[i].backing != 0 ==> (
            #[trigger] n.chunks[i]).leases == m.chunks[i].leases + (if m.chunks[i].backing == p {
                d
            } else {
                0
            }),
    ensures
        unique_addresses(n),
        forall|q: usize|
            q != 0 ==> #[trigger] leases_at(n, q) == leases_at(m, q) + (if q == p && m.slot_at(p)
                is Some {
                d
            } else {
                0
            }),
{
    assert forall|q: usize| q != 0 implies #[trigger] leases_at(n, q) == leases_at(m, q) + (if q
        == p && m.slot_at(p) is Some {
        d
    } else {
        0
    }) by {
        lemma_same_slot(m, n, q);
        lemma_slot_at(m, q);
    }
}

/// Leasing a chunk that is ready, by its key.
pub proof fn lemma_try_acquire_leases(m: Model, asset: u32, index: u32)
    requires
        m.consistent(),
        unique_addresses(m),
        light(m, 1),
    ensures
        m.try_acquire(asset, index).consistent(),
        unique_addresses(m.try_acquire(asset, index)),
        quiet(m, m.try_acquire(asset, index)),
        forall|q: usize|
            q != 0 ==> #[trigger] leases_at(m.try_acquire(asset, index), q) == leases_at(m, q)
                + one_if(q == m.try_acquire_result(asset, index)),
{
    let n = m.try_acquire(asset, index);
    let p = m.try_acquire_result(asset, index);
    lemma_resident(m, asset, index);
    match m.resident(asset, index) {
        Some(i) => {
            lemma_leases_at(m, i);
            if m.chunks[i].ready {
                lemma_slot_at(m, p);
                assert forall|j: int| 0 <= j < m.chunks.len() && m.chunks[j].backing != 0 implies (
                #[trigger] n.chunks[j]).leases == m.chunks[j].leases + (if m.chunks[j].backing == p {
                    1int
                } else {
                    0int
                }) by {
                    assert(m.chunks[j].backing == p ==> j == i);
                }
            }
        },
        None => {},
    }
    lemma_leases_change(m, n, p, 1);
    lemma_same_consistent(m, n);
}

/// Giving a lease back.
pub proof fn lemma_release_leases(m: Model, p: usize)
    requires
        m.consistent(),
        unique_addresses(m),
        leases_at(m, p) >= 1,
    ensures
        m.release(p).consistent(),
        unique_addresses(m.release(p)),
        quiet(m, m.release(p)),
        forall|q: usize|
            q != 0 ==> #[trigger] leases_at(m.release(p), q) == leases_at(m, q) - one_if(q == p),
{
    let n = m.release(p);
    lemma_slot_at(m, p);
    let i = m.slot_at(p)->0;
    assert forall|j: int| 0 <= j < m.chunks.len() && m.chunks[j].backing != 0 implies (
    #[trigger] n.chunks[j]).leases == m.chunks[j].leases + (if m.chunks[j].backing == p {
        -1int
    } else {
        0int
    }) by {
        assert(m.chunks[j].backing == p ==> j == i);
    }
    lemma_leases_change(m, n, p, -1);
    lemma_same_consistent(m, n);
}

/// A chunk marked ready, looked up, queued for loading: no lease changes.
pub proof fn lemma_same_leases(m: Model, p: usize, slot: u32, priority: u32)
    requires
        m.consistent(),
        unique_addresses(m),
    ensures
        m.mark_ready(p).consistent(),
        m.searched_ptr(p).consistent(),
        m.enqueue(slot, priority).consistent(),
        unique_addresses(m.mark_ready(p)),
        unique_addresses(m.searched_ptr(p)),
        unique_addresses(m.enqueue(slot, priority)),
        same_places(m, m.mark_ready(p)),
        m.mark_ready(p).assets == m.assets,
        forall|i: int|
            0 <= i < m.chunks.len() ==> (#[trigger] m.mark_ready(p).chunks[i]).ready == (
            m.chunks[i].ready || m.slot_at(p) == Some(i)),
        quiet(m, m.searched_ptr(p)),
        quiet(m, m.enqueue(slot, priority)),
        forall|q: usize| q != 0 ==> #[trigger] leases_at(m.mark_ready(p), q) == leases_at(m, q),
        forall|q: usize| q != 0 ==> #[trigger] leases_at(m.searched_ptr(p), q) == leases_at(m, q),
        forall|q: usize|
            q != 0 ==> #[trigger] leases_at(m.enqueue(slot, priority), q) == leases_at(m, q),
{
    lemma_slot_at(m, p);
    lemma_leases_change(m, m.mark_ready(p), 0, 0);
    lemma_leases_change(m, m.searched_ptr(p), 0, 0);
    lemma_leases_change(m, m.enqueue(slot, priority), 0, 0);
    lemma_same_consistent(m, m.mark_ready(p));
    lemma_same_consistent(m, m.searched_ptr(p));
    lemma_same_consistent(m, m.enqueue(slot, priority));
}

/// Nothing in `n` is leased that was not in `m`, but for slot `i`: others are as they were or
/// were evicted, and then had no lease.
proof fn lemma_kept_leases(m: Model, n: Model, prot: u32, i: int, q: usize)
    requires
        unique_addresses(m),
        unique_addresses(n),
        n.chunks.len() == m.chunks.len(),
        forall|j: int|
            0 <= j < m.chunks.len() && j != i ==> kept_or_evicted(
                m.chunks[j],
                #[trigger] n.chunks[j],
                prot,
            ),
        q != 0,
        0 <= i < n.chunks.len() ==> n.chunks[i].backing != q,
        0 <= i < n.chunks.len() ==> m.chunks[i].backing == q ==> m.chunks[i].leases == 0,
    ensures
        leases_at(n, q) == leases_at(m, q),
{
    lemma_slot_at(m, q);
    lemma_slot_at(n, q);
    match n.slot_at(q) {
        Some(j) => {
            assert(kept_or_evicted(m.chunks[j], n.chunks[j], prot));
            lemma_leases_at(m, j);
        },
        None => {
            match m.slot_at(q) {
                Some(j) => {
                    if j != i {
                        assert(kept_or_evicted(m.chunks[j], n.chunks[j], prot));
                        assert(n.chunks[j].backing != q);
                    }
                },
                None => {},
            }
        },
    }
}

/// A request takes one lease, on the chunk that it gives, or none.
pub proof fn requests_take_one_lease(
    m: Model,
    asset: u32,
    index: u32,
    size: usize,
    r: usize,
    n: Model,
)
    requires
        m.consistent(),
        unique_addresses(m),
        unique_addresses(n),
        light(m, 1),
        request_outcome(m, asset, index, size, r, n),
    ensures
        forall|q: usize|
            q != 0 ==> #[trigger] leases_at(n, q) == leases_at(m, q) + one_if(q == r),
{
    reveal(request_outcome);
    lemma_resident(m, asset, index);
    if m.requestable(asset) {
        match m.resident(asset, index) {
            Some(i) => {
                lemma_leases_at(m, i);
                lemma_slot_at(m, r);
                assert forall|j: int| 0 <= j < m.chunks.len() && m.chunks[j].backing != 0 implies (
                #[trigger] n.chunks[j]).leases == m.chunks[j].leases + (if m.chunks[j].backing == r {
                    1int
                } else {
                    0int
                }) by {
                    assert(m.chunks[j].backing == r ==> j == i);
                }
                lemma_leases_change(m, n, r, 1);
            },
            None => {
                let prot = m.protection(asset);
                if r == 0 {
                    assert(only_evicted(m.protecting(prot), n.protecting(prot)));
                    assert forall|q: usize| q != 0 implies #[trigger] leases_at(n, q) == leases_at(
                        m,
                        q,
                    ) + one_if(q == r) by {
                        assert forall|j: int|
                            0 <= j < m.chunks.len() && j != -1 implies kept_or_evicted(
                            m.chunks[j],
                            #[trigger] n.chunks[j],
                            prot,
                        ) by {
                            assert(n.protecting(prot).chunks[j] == n.chunks[j]);
                        }
                        lemma_kept_leases(m, n, prot, -1, q);
                    }
                } else {
                    let i = choose|i: int|
                        #[trigger] newly_reserved(m, n, i, r, asset, index, size, false, prot);
                    assert forall|q: usize| q != 0 implies #[trigger] leases_at(n, q) == leases_at(
                        m,
                        q,
                    ) + one_if(q == r) by {
                        if q == r {
                            lemma_leases_at(n, i);
                            lemma_slot_at(m, r);
                            match m.slot_at(r) {
                                Some(j) => {
                                    if j != i {
                                        assert(kept_or_evicted(m.chunks[j], n.chunks[j], prot));
                                    }
                                },
                                None => {},
                            }
                        } else {
                            lemma_kept_leases(m, n, prot, i, q);
                        }
                    }
                }
            },
        }
    }
}

} // verus!
