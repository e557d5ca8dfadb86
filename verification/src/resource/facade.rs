//! The cache as its users see it: typed chunk handles, leases, and the operations that
//! allocate, evict and run callbacks.
use crate::resource::asking::{
    answers, ask_construct, ask_evict_rank, ask_heap_alloc, ask_heap_free, ask_materialize,
    ask_notify, ask_slab_acquire, ask_slab_release, asked_since, lemma_asked, lemma_asked_none,
    lemma_asked_one,
};
use crate::resource::index::NONE;
use crate::resource::laws::{lemma_keys_stay, reserving_keeps_keys_unique};
use crate::resource::manager::{slot_number, Manager};
use crate::resource::model::{lemma_resident, lemma_slot_at, Model};
use crate::resource::sync::{after_window, InterruptMask, Masked};
use crate::resource::trace::{
    acquire_asks, acquire_begun, acquires_missing, adopts, allocates, asks_memory, builds,
    evict_step, evicts, finds_room, finds_slot, frees, lemma_no_ranking, lemma_one,
    lemma_ranking_same, lemma_retires_none, lemma_retires_one, lemma_since, lemma_vain_round,
    nothing_to_evict, ranking, request_asks, request_begun, requests_missing, retires, since, told,
    vain_rounds, Event, Reply,
};
use crate::resource::types::{
    AssetSlot, Begin, Build, ChunkSlot, Evicted, Notice, Rank, RankInput, Stats, NO_SLOT,
};
use vstd::prelude::*;

verus! {

/// What the cache asks of the program around it. Nothing is known of the answers.
pub trait Backend {
    /// The eviction rank of a chunk; the lowest goes first.
    fn evict_rank(&mut self, input: RankInput) -> Rank;

    /// Memory of `size` bytes aligned to `align`, or 0.
    fn heap_alloc(&mut self, size: usize, align: usize) -> usize;

    /// Gives heap memory back.
    fn heap_free(&mut self, p: usize);

    /// A slot of the slab, or 0.
    fn slab_acquire(&mut self, slab: usize) -> usize;

    /// Gives a slot back; false if the memory is not of that slab.
    fn slab_release(&mut self, slab: usize, p: usize) -> bool;

    /// Rebuilds a chunk of `len` bytes, with I/O; false if that is not possible now.
    fn materialize(&mut self, build: Build, len: usize) -> bool;

    /// Initialises a chunk without I/O.
    fn construct(&mut self, build: Build);

    /// Tells the owner of an evicted chunk.
    fn notify(&mut self, notice: Notice);
}

/// How many of the slots are occupied.
pub open spec fn occupied_count(chunks: Seq<ChunkSlot>) -> nat
    decreases chunks.len(),
{
    if chunks.len() == 0 {
        0
    } else {
        occupied_count(chunks.drop_last()) + (if chunks.last().backing != 0 {
            1nat
        } else {
            0
        })
    }
}

/// Emptying an occupied slot leaves one fewer.
proof fn lemma_occupied_count(chunks: Seq<ChunkSlot>, i: int)
    requires
        0 <= i < chunks.len(),
        chunks[i].backing != 0,
    ensures
        occupied_count(chunks) == occupied_count(chunks.update(i, ChunkSlot::spec_empty())) + 1,
    decreases chunks.len(),
{
    let u = chunks.update(i, ChunkSlot::spec_empty());
    if i == chunks.len() - 1 {
        assert(u.drop_last() =~= chunks.drop_last());
    } else {
        lemma_occupied_count(chunks.drop_last(), i);
        assert(u.drop_last() =~= chunks.drop_last().update(i, ChunkSlot::spec_empty()));
    }
}

/// Slot contents `c` may become `d` by eviction while `protect` is protected.
pub open spec fn kept_or_evicted(c: ChunkSlot, d: ChunkSlot, protect: u32) -> bool {
    d == c || (d == ChunkSlot::spec_empty() && c.evictable() && (protect != NONE ==> c.asset
        != protect))
}

/// `n` is `m` after evictions: nothing else happened to the tables, no chunk was evicted
/// that was leased, unsaved or protected, and of an asset that is evicted tail first
/// no chunk went before one of a higher index.
pub open spec fn only_evicted(m: Model, n: Model) -> bool {
    &&& n.slab == m.slab
    &&& n.assets == m.assets
    &&& n.tick == m.tick
    &&& n.protect == m.protect
    &&& n.alloc_gen == m.alloc_gen
    &&& n.chunks.len() == m.chunks.len()
    &&& forall|j: int|
        0 <= j < m.chunks.len() ==> kept_or_evicted(
            m.chunks[j],
            #[trigger] n.chunks[j],
            m.protect,
        )
    &&& tails_evicted(m.assets, m.chunks, n.chunks)
}

/// Of an asset that is evicted tail first, a chunk that is gone from `n` has a higher or
/// equal index than one that is still there.
pub open spec fn tails_evicted(
    assets: Seq<AssetSlot>,
    m: Seq<ChunkSlot>,
    n: Seq<ChunkSlot>,
) -> bool {
    forall|i: int, j: int|
        0 <= i < m.len() && 0 <= j < m.len() && m[i].keyed() && m[i].asset < assets.len()
            && assets[m[i].asset as int].evict_tail_first && n[i].backing == 0 && m[j].backing != 0
            && n[j] == m[j] && m[j].asset == m[i].asset ==> (#[trigger] m[j]).index <= (
        #[trigger] m[i]).index
}

proof fn lemma_only_evicted_trans(m: Model, n: Model, o: Model)
    requires
        only_evicted(m, n),
        only_evicted(n, o),
    ensures
        only_evicted(m, o),
{
    assert forall|j: int| 0 <= j < m.chunks.len() implies kept_or_evicted(
        m.chunks[j],
        #[trigger] o.chunks[j],
        m.protect,
    ) by {
        assert(kept_or_evicted(m.chunks[j], n.chunks[j], m.protect));
        assert(kept_or_evicted(n.chunks[j], o.chunks[j], m.protect));
    }
    assert forall|i: int, j: int|
        0 <= i < m.chunks.len() && 0 <= j < m.chunks.len() && m.chunks[i].keyed()
            && m.chunks[i].asset < m.assets.len()
            && m.assets[m.chunks[i].asset as int].evict_tail_first && o.chunks[i].backing == 0
            && m.chunks[j].backing != 0 && o.chunks[j] == m.chunks[j] && m.chunks[j].asset
            == m.chunks[i].asset implies (#[trigger] m.chunks[j]).index <= (
    #[trigger] m.chunks[i]).index by {
        assert(kept_or_evicted(m.chunks[j], n.chunks[j], m.protect));
        assert(kept_or_evicted(m.chunks[i], n.chunks[i], m.protect));
        assert(kept_or_evicted(n.chunks[j], o.chunks[j], m.protect));
        assert(n.chunks[j] == m.chunks[j]);
        if n.chunks[i] == m.chunks[i] {
            assert(n.chunks[j].index <= n.chunks[i].index);
        }
    }
}

/// Evicting one candidate is an eviction.
proof fn lemma_only_evicted_one(m: Model, i: int)
    requires
        0 <= i < m.chunks.len(),
        m.candidate(i),
    ensures
        only_evicted(m, m.evicted(i)),
{
    let n = m.evicted(i);
    assert forall|a: int, b: int|
        0 <= a < m.chunks.len() && 0 <= b < m.chunks.len() && m.chunks[a].keyed()
            && m.chunks[a].asset < m.assets.len()
            && m.assets[m.chunks[a].asset as int].evict_tail_first && n.chunks[a].backing == 0
            && m.chunks[b].backing != 0 && n.chunks[b] == m.chunks[b] && m.chunks[b].asset
            == m.chunks[a].asset implies (#[trigger] m.chunks[b]).index <= (
    #[trigger] m.chunks[a]).index by {
        assert(a == i);
        assert(m.highest(m.chunks[i].asset, m.chunks[i].index));
    }
}

/// The tables after one search for a victim.
pub open spec fn after_evict_scan(m: Model) -> Model {
    Model { stats: m.stats.scanned_evict(m.chunks.len()), ..m }
}

/// A resident chunk's memory: the chunk's identity. It holds no lease.
#[derive(Clone, Copy, PartialEq, Eq, Debug, Structural)]
pub struct Chunk {
    addr: usize,
}

impl Chunk {
    /// The address.
    pub closed spec fn view(&self) -> usize {
        self.addr
    }

    /// A handle on the chunk at `p`; nothing for 0.
    pub fn from_ptr(p: usize) -> (r: Option<Chunk>)
        ensures
            match r {
                Some(c) => p != 0 && c@ == p,
                None => p == 0,
            },
    {
        if p == 0 {
            None
        } else {
            Some(Chunk { addr: p })
        }
    }

    /// The address.
    pub fn as_ptr(self) -> (p: usize)
        ensures
            p == self@,
    {
        self.addr
    }
}

/// One hard lease on a chunk, which its holder gives back through
/// `Resource::release_lease`. It cannot be copied, so a lease is given back once.
#[derive(Debug)]
pub struct Lease {
    chunk: Chunk,
}

impl Lease {
    /// The leased chunk's address.
    pub closed spec fn view(&self) -> usize {
        self.chunk@
    }

    fn of(chunk: Chunk) -> (r: Lease)
        ensures
            r@ == chunk@,
    {
        Lease { chunk }
    }

    /// The lease that was just taken on the chunk at `p`; nothing for 0.
    pub(crate) fn taken(p: usize) -> (r: Option<Lease>)
        ensures
            lease_addr(r) == p,
            r is Some <==> p != 0,
    {
        match Chunk::from_ptr(p) {
            Some(c) => Some(Lease::of(c)),
            None => None,
        }
    }

    /// The leased chunk.
    pub fn chunk(&self) -> (r: Chunk)
        ensures
            r@ == self@,
    {
        self.chunk
    }
}

/// A manager with the program around it.
pub struct Resource<B: Backend> {
    pub mgr: Manager,
    pub backend: B,
    /// An allocation that fails evicts and tries again.
    pub reclaim: bool,
    /// What was asked of the program around, with the answers.
    pub history: Ghost<Seq<Event>>,
}

impl<B: Backend> Resource<B> {
    /// The manager's tables are in order, and no chunk of an asset is in them twice.
    pub closed spec fn wf(&self) -> bool {
        self.mgr.wf() && self@.unique_keys()
    }

    /// What being in order means.
    pub proof fn lemma_wf(&self)
        ensures
            self.wf() == (self.mgr.wf() && self@.unique_keys()),
            self.wf() ==> self@.consistent(),
    {
    }

    /// The tables' contents. What is asked of the backend is told by `trace`, and how that
    /// changes the backend by `follows`.
    pub open spec fn view(&self) -> Model {
        self.mgr@
    }

    /// All that was asked of the backend so far, with the answers.
    pub open spec fn trace(&self) -> Seq<Event> {
        self.history@
    }

    /// It has gone on from `earlier`: what is new in its history was asked of the backend, in
    /// that order and with those answers, and that is all that the backend was asked.
    pub open spec fn follows(self, earlier: Self) -> bool {
        asked_since(earlier.trace(), earlier.backend, self.trace(), self.backend)
    }

    /// It has gone on to `self`, and from there to `later`.
    pub proof fn lemma_follows(self, earlier: Self, later: Self)
        requires
            self.follows(earlier),
            later.follows(self),
        ensures
            later.follows(earlier),
    {
        lemma_asked(
            earlier.trace(),
            earlier.backend,
            self.trace(),
            self.backend,
            later.trace(),
            later.backend,
        );
    }

    /// It has gone on without a question.
    pub proof fn lemma_stays(self, earlier: Self)
        requires
            self.trace() == earlier.trace(),
            self.backend == earlier.backend,
        ensures
            self.follows(earlier),
    {
        lemma_asked_none(self.trace(), self.backend);
    }

    /// A cache over empty tables. With `reclaim`, an allocation that fails evicts and
    /// tries again; without it somebody else drives `evict_lowest`. Nothing if a
    /// capacity is zero.
    pub fn create(
        backend: B,
        asset_cap: usize,
        chunk_cap: usize,
        reclaim: bool,
    ) -> (r: Option<Self>)
        requires
            asset_cap <= NONE,
            chunk_cap <= 0x8000_0000,
        ensures
            r is None <==> asset_cap == 0 || chunk_cap == 0,
            match r {
                Some(s) => {
                    &&& s.wf()
                    &&& s.reclaim == reclaim
                    &&& s.backend == backend
                    &&& s.trace() == Seq::<Event>::empty()
                    &&& s@.slab == 0
                    &&& s@.assets == Seq::new(asset_cap as nat, |i: int| AssetSlot::spec_empty())
                    &&& s@.chunks == Seq::new(chunk_cap as nat, |i: int| ChunkSlot::spec_empty())
                    &&& s@.tick == 0
                    &&& s@.protect == NONE
                    &&& s@.stats.zero()
                    &&& s@.alloc_gen == 0
                },
                None => true,
            },
    {
        match Manager::new(asset_cap, chunk_cap) {
            Some(mgr) => Some(
                Resource { mgr, backend, reclaim, history: Ghost(Seq::empty()) },
            ),
            None => None,
        }
    }

    // ---- questions to the backend ----

    /// Asks for a rank.
    fn ask_evict_rank(&mut self, input: RankInput) -> (r: Rank)
        ensures
            final(self).mgr == old(self).mgr,
            final(self).reclaim == old(self).reclaim,
            final(self).trace() == old(self).trace().push(Event::Ranked { input, rank: r }),
            answers(old(self).backend, Event::Ranked { input, rank: r }, final(self).backend),
            final(self).follows(*old(self)),
    {
        let reply = ask_evict_rank(&mut self.backend, input);
        let r = reply.answer;
        proof {
            assert(reply == (Reply {
                answer: r,
                before: Ghost(old(self).backend),
                after: Ghost(self.backend),
            }));
            lemma_asked_one(
                self.trace(),
                old(self).backend,
                Event::Ranked { input, rank: r },
                self.backend,
            );
            self.history = Ghost(self.history@.push(Event::Ranked { input, rank: r }));
        }
        r
    }

    /// Asks for heap memory.
    fn ask_heap_alloc(&mut self, size: usize, align: usize) -> (r: usize)
        ensures
            final(self).mgr == old(self).mgr,
            final(self).reclaim == old(self).reclaim,
            final(self).trace() == old(self).trace().push(Event::HeapAlloc { size, align, got: r }),
            answers(
                old(self).backend,
                Event::HeapAlloc { size, align, got: r },
                final(self).backend,
            ),
            final(self).follows(*old(self)),
    {
        let reply = ask_heap_alloc(&mut self.backend, size, align);
        let r: usize = reply.answer;
        proof {
            assert(reply == (Reply {
                answer: r,
                before: Ghost(old(self).backend),
                after: Ghost(self.backend),
            }));
            lemma_asked_one(
                self.trace(),
                old(self).backend,
                Event::HeapAlloc { size, align, got: r },
                self.backend,
            );
            self.history = Ghost(self.history@.push(Event::HeapAlloc { size, align, got: r }));
        }
        r
    }

    /// Gives heap memory back.
    fn ask_heap_free(&mut self, p: usize)
        ensures
            final(self).mgr == old(self).mgr,
            final(self).reclaim == old(self).reclaim,
            final(self).trace() == old(self).trace().push(Event::HeapFree { p }),
            answers(old(self).backend, Event::HeapFree { p }, final(self).backend),
            final(self).follows(*old(self)),
    {
        let reply = ask_heap_free(&mut self.backend, p);
        proof {
            assert(reply == (Reply {
                answer: (),
                before: Ghost(old(self).backend),
                after: Ghost(self.backend),
            }));
            lemma_asked_one(self.trace(), old(self).backend, Event::HeapFree { p }, self.backend);
            self.history = Ghost(self.history@.push(Event::HeapFree { p }));
        }
    }

    /// Asks for a slot of the slab.
    fn ask_slab_acquire(&mut self, slab: usize) -> (r: usize)
        ensures
            final(self).mgr == old(self).mgr,
            final(self).reclaim == old(self).reclaim,
            final(self).trace() == old(self).trace().push(Event::SlabAcquire { slab, got: r }),
            answers(old(self).backend, Event::SlabAcquire { slab, got: r }, final(self).backend),
            final(self).follows(*old(self)),
    {
        let reply = ask_slab_acquire(&mut self.backend, slab);
        let r: usize = reply.answer;
        proof {
            assert(reply == (Reply {
                answer: r,
                before: Ghost(old(self).backend),
                after: Ghost(self.backend),
            }));
            lemma_asked_one(
                self.trace(),
                old(self).backend,
                Event::SlabAcquire { slab, got: r },
                self.backend,
            );
            self.history = Ghost(self.history@.push(Event::SlabAcquire { slab, got: r }));
        }
        r
    }

    /// Gives a slot back to the slab.
    fn ask_slab_release(&mut self, slab: usize, p: usize) -> (r: bool)
        ensures
            final(self).mgr == old(self).mgr,
            final(self).reclaim == old(self).reclaim,
            final(self).trace() == old(self).trace().push(Event::SlabRelease { slab, p, taken: r }),
            answers(
                old(self).backend,
                Event::SlabRelease { slab, p, taken: r },
                final(self).backend,
            ),
            final(self).follows(*old(self)),
    {
        let reply = ask_slab_release(&mut self.backend, slab, p);
        let r = reply.answer;
        proof {
            assert(reply == (Reply {
                answer: r,
                before: Ghost(old(self).backend),
                after: Ghost(self.backend),
            }));
            lemma_asked_one(
                self.trace(),
                old(self).backend,
                Event::SlabRelease { slab, p, taken: r },
                self.backend,
            );
            self.history = Ghost(self.history@.push(Event::SlabRelease { slab, p, taken: r }));
        }
        r
    }

    /// Has a chunk rebuilt.
    fn ask_materialize(&mut self, build: Build, len: usize) -> (r: bool)
        ensures
            final(self).mgr == old(self).mgr,
            final(self).reclaim == old(self).reclaim,
            final(self).trace() == old(self).trace().push(Event::Materialize { build, len, ok: r }),
            answers(
                old(self).backend,
                Event::Materialize { build, len, ok: r },
                final(self).backend,
            ),
            final(self).follows(*old(self)),
    {
        let reply = ask_materialize(&mut self.backend, build, len);
        let r = reply.answer;
        proof {
            assert(reply == (Reply {
                answer: r,
                before: Ghost(old(self).backend),
                after: Ghost(self.backend),
            }));
            lemma_asked_one(
                self.trace(),
                old(self).backend,
                Event::Materialize { build, len, ok: r },
                self.backend,
            );
            self.history = Ghost(self.history@.push(Event::Materialize { build, len, ok: r }));
        }
        r
    }

    /// Has a chunk initialised.
    fn ask_construct(&mut self, build: Build)
        ensures
            final(self).mgr == old(self).mgr,
            final(self).reclaim == old(self).reclaim,
            final(self).trace() == old(self).trace().push(Event::Construct { build }),
            answers(old(self).backend, Event::Construct { build }, final(self).backend),
            final(self).follows(*old(self)),
    {
        let reply = ask_construct(&mut self.backend, build);
        proof {
            assert(reply == (Reply {
                answer: (),
                before: Ghost(old(self).backend),
                after: Ghost(self.backend),
            }));
            lemma_asked_one(
                self.trace(),
                old(self).backend,
                Event::Construct { build },
                self.backend,
            );
            self.history = Ghost(self.history@.push(Event::Construct { build }));
        }
    }

    /// Tells the owner of an evicted chunk.
    fn ask_notify(&mut self, notice: Notice)
        ensures
            final(self).mgr == old(self).mgr,
            final(self).reclaim == old(self).reclaim,
            final(self).trace() == old(self).trace().push(Event::Notify { notice }),
            answers(old(self).backend, Event::Notify { notice }, final(self).backend),
            final(self).follows(*old(self)),
    {
        let reply = ask_notify(&mut self.backend, notice);
        proof {
            assert(reply == (Reply {
                answer: (),
                before: Ghost(old(self).backend),
                after: Ghost(self.backend),
            }));
            lemma_asked_one(
                self.trace(),
                old(self).backend,
                Event::Notify { notice },
                self.backend,
            );
            self.history = Ghost(self.history@.push(Event::Notify { notice }));
        }
    }

    // ---- eviction and memory ----

    /// Gives a chunk's memory back: to the slab that backs the asset, else, or if it is
    /// not of that slab, to the heap.
    fn free_backing(&mut self, p: usize, asset: u32)
        requires
            old(self).wf(),
            asset == NONE || asset < old(self)@.assets.len(),
        ensures
            final(self).mgr == old(self).mgr,
            final(self).reclaim == old(self).reclaim,
            final(self).follows(*old(self)),
            frees(old(self)@.slab_of(asset), p, since(old(self).trace(), final(self).trace())),
    {
        let ghost t = self.trace();
        let slab: usize = self.mgr.slab_for(asset);
        if slab != 0 {
            let taken = self.ask_slab_release(slab, p);
            let ghost u = self.trace();
            let ghost mid = *self;
            proof {
                lemma_one(t, Event::SlabRelease { slab, p, taken });
            }
            if taken {
                return;
            }
            self.ask_heap_free(p);
            proof {
                lemma_one(u, Event::HeapFree { p });
                lemma_since(t, u, self.trace());
                mid.lemma_follows(*old(self), *self);
                assert(since(t, self.trace()) =~= seq![
                    Event::SlabRelease { slab, p, taken: false },
                    Event::HeapFree { p },
                ]);
            }
            return;
        }
        self.ask_heap_free(p);
        proof {
            lemma_one(t, Event::HeapFree { p });
        }
    }

    /// Does what an eviction left to be done: tells the owner, then frees.
    fn settle(&mut self, e: Evicted)
        requires
            old(self).wf(),
            e.asset == NONE || e.asset < old(self)@.assets.len(),
        ensures
            final(self).mgr == old(self).mgr,
            final(self).reclaim == old(self).reclaim,
            final(self).follows(*old(self)),
            told(
                e.notice,
                old(self)@.slab_of(e.asset),
                e.backing,
                since(old(self).trace(), final(self).trace()),
            ),
    {
        let ghost t = self.trace();
        match e.notice {
            Notice::Silent => self.free_backing(e.backing, e.asset),
            _ => {
                self.ask_notify(e.notice);
                let ghost u = self.trace();
                let ghost mid = *self;
                self.free_backing(e.backing, e.asset);
                proof {
                    lemma_one(t, Event::Notify { notice: e.notice });
                    lemma_since(t, u, self.trace());
                    mid.lemma_follows(*old(self), *self);
                }
            },
        }
    }

    /// The rank of each slot, as the backend has it.
    fn rank_all(&mut self) -> (r: Vec<Rank>)
        requires
            old(self).wf(),
        ensures
            final(self).mgr == old(self).mgr,
            final(self).reclaim == old(self).reclaim,
            r@.len() == old(self)@.chunks.len(),
            final(self).follows(*old(self)),
            since(old(self).trace(), final(self).trace()) == ranking(
                old(self)@,
                r@,
                old(self)@.chunks.len(),
            ),
    {
        let ghost m = self@;
        let ghost t = self.trace();
        let inputs = self.mgr.rank_inputs();
        let mut ranks: Vec<Rank> = Vec::new();
        let mut i: usize = 0;
        proof {
            lemma_one(t, Event::HeapFree { p: 0 });
            assert(since(t, t) =~= ranking(m, ranks@, 0));
            self.lemma_stays(*old(self));
        }
        while i < inputs.len()
            invariant
                self.mgr == old(self).mgr,
                self.reclaim == old(self).reclaim,
                m == old(self)@,
                inputs@.len() == m.chunks.len(),
                forall|k: int|
                    0 <= k < inputs@.len() ==> #[trigger] inputs@[k] == (if m.candidate(k) {
                        Some(m.rank_input(k))
                    } else {
                        None
                    }),
                i <= inputs@.len(),
                ranks@.len() == i,
                t == old(self).trace(),
                self.follows(*old(self)),
                since(t, self.trace()) == ranking(m, ranks@, i as nat),
            decreases inputs@.len() - i,
        {
            let ghost before = ranks@;
            let ghost u = self.trace();
            let ghost mid = *self;
            match inputs[i] {
                Some(input) => {
                    let r = self.ask_evict_rank(input);
                    ranks.push(r);
                    proof {
                        lemma_one(u, Event::Ranked { input, rank: r });
                        lemma_since(t, u, self.trace());
                        mid.lemma_follows(*old(self), *self);
                        lemma_ranking_same(m, before, ranks@, i as nat);
                        assert(since(t, self.trace()) =~= ranking(m, before, i as nat).push(
                            Event::Ranked { input, rank: r },
                        ));
                        assert(ranks@[i as int] == r);
                    }
                },
                None => {
                    ranks.push((u8::MAX, u64::MAX, u64::MAX));
                    proof {
                        lemma_ranking_same(m, before, ranks@, i as nat);
                    }
                },
            }
            i = i + 1;
        }
        ranks
    }

    /// Evicts the lowest-value chunk that may be evicted: empties its slot, tells its
    /// owner and frees its memory. False if nothing may be evicted.
    pub fn evict_lowest(&mut self) -> (r: bool)
        requires
            old(self).wf(),
        ensures
            final(self).wf(),
            final(self).reclaim == old(self).reclaim,
            r <==> exists|i: int|
                0 <= i < old(self)@.chunks.len() && #[trigger] old(self)@.candidate(i),
            final(self).follows(*old(self)),
            !r ==> final(self)@ == after_evict_scan(old(self)@) && final(self).trace() == old(
                self,
            ).trace(),
            r ==> evict_step(
                old(self)@,
                since(old(self).trace(), final(self).trace()),
                final(self)@,
            ),
            only_evicted(old(self)@, final(self)@),
            r ==> occupied_count(final(self)@.chunks) + 1 == occupied_count(old(self)@.chunks),
    {
        let ghost m = self@;
        let ghost t = self.trace();
        let ranks = self.rank_all();
        let ghost u = self.trace();
        let ghost mid = *self;
        let pick: Option<usize> = self.mgr.pick_victim(&ranks, None);
        self.mgr.note_evict_scan();
        match pick {
            Some(i) => {
                let ghost n = self@;
                proof {
                    assert(m.victim(ranks@, None, Some(i as int)));
                    assert(n.candidate(i as int));
                    lemma_only_evicted_one(n, i as int);
                    lemma_occupied_count(m.chunks, i as int);
                }
                match self.mgr.evict_slot(i) {
                    Some(e) => {
                        assert(self@ == n.evicted(i as int));
                        self.settle(e);
                        proof {
                            lemma_since(t, u, self.trace());
                            mid.lemma_follows(*old(self), *self);
                            assert(evicts(m, ranks@, i as int, since(t, self.trace())));
                            reveal(evict_step);
                        }
                        true
                    },
                    None => false,
                }
            },
            None => {
                assert(m.victim(ranks@, None, None));
                proof {
                    lemma_no_ranking(m, ranks@, m.chunks.len());
                    assert(self.trace() =~= t);
                }
                false
            },
        }
    }

    /// Asks once for memory: a slot of the slab if there is one, else `size` bytes.
    fn ask_memory(&mut self, slab: usize, size: usize) -> (p: usize)
        ensures
            final(self).mgr == old(self).mgr,
            final(self).reclaim == old(self).reclaim,
            final(self).trace() == old(self).trace().push(asks_memory(slab, size, p)),
            final(self).follows(*old(self)),
    {
        if slab != 0 {
            self.ask_slab_acquire(slab)
        } else {
            self.ask_heap_alloc(size, 16)
        }
    }

    /// Memory for a chunk of `asset`: a slot of the slab if that backs it, else `size`
    /// bytes of the heap; 0 if there is none. If so set up, evicts and tries again
    /// until nothing may be evicted.
    fn alloc_backing(&mut self, size: usize, asset: u32) -> (p: usize)
        requires
            old(self).wf(),
            asset < old(self)@.assets.len(),
        ensures
            final(self).wf(),
            final(self).reclaim == old(self).reclaim,
            only_evicted(old(self)@, final(self)@),
            final(self).follows(*old(self)),
            allocates(
                old(self)@,
                asset,
                size,
                old(self).reclaim,
                since(old(self).trace(), final(self).trace()),
                p,
                final(self)@,
            ),
    {
        let ghost m = self@;
        let ghost t = self.trace();
        let slab: usize = self.mgr.slab_for(asset);
        let mut p: usize = self.ask_memory(slab, size);
        let ghost mut mid = self@;
        let ghost mut before = Seq::<Event>::empty();
        proof {
            lemma_one(t, asks_memory(slab, size, p));
            assert(since(t, self.trace()) =~= before.push(asks_memory(slab, size, p)));
        }
        while p == 0 && self.reclaim
            invariant_except_break
                self@ == mid,
            invariant
                self.wf(),
                self.reclaim == old(self).reclaim,
                only_evicted(m, self@),
                vain_rounds(m, slab, size, before, mid),
                t == old(self).trace(),
                self.follows(*old(self)),
                since(t, self.trace()) == before.push(asks_memory(slab, size, p)),
                !self.reclaim ==> before.len() == 0,
            ensures
                p == 0 && self.reclaim ==> nothing_to_evict(mid) && self@ == after_evict_scan(mid),
                p != 0 || !self.reclaim ==> self@ == mid,
            decreases occupied_count(self@.chunks),
        {
            let ghost u = self.trace();
            let ghost first = *self;
            let freed = self.evict_lowest();
            let ghost v = self.trace();
            let ghost second = *self;
            proof {
                first.lemma_follows(*old(self), second);
                lemma_only_evicted_trans(m, mid, self@);
            }
            if !freed {
                proof {
                    assert(nothing_to_evict(mid));
                }
                break;
            }
            proof {
                lemma_since(t, u, v);
                lemma_vain_round(m, slab, size, before, mid, since(u, v), self@);
                mid = self@;
                before = before.push(asks_memory(slab, size, 0)) + since(u, v);
            }
            p = self.ask_memory(slab, size);
            proof {
                lemma_one(v, asks_memory(slab, size, p));
                lemma_since(t, v, self.trace());
                second.lemma_follows(*old(self), *self);
                assert(since(t, self.trace()) =~= before.push(asks_memory(slab, size, p)));
            }
        }
        if p == 0 {
            self.mgr.note_alloc_failure();
        }
        proof {
            reveal(allocates);
            let ev = since(t, self.trace());
            assert(ev.drop_last() =~= before);
            assert(vain_rounds(m, slab, size, ev.drop_last(), mid));
        }
        p
    }

    /// A free slot, made by evicting the lowest-value chunk if the table is full.
    fn reserve_slot(&mut self) -> (r: Option<usize>)
        requires
            old(self).wf(),
        ensures
            final(self).wf(),
            final(self).reclaim == old(self).reclaim,
            only_evicted(old(self)@, final(self)@),
            match r {
                Some(i) => i < final(self)@.chunks.len() && final(self)@.chunks[i as int].backing
                    == 0,
                None => full(old(self)@) && final(self)@ == (Model {
                    stats: final(self)@.stats,
                    ..old(self)@
                }),
            },
            full(old(self)@) ==> r is None,
            final(self).follows(*old(self)),
            finds_slot(
                old(self)@,
                since(old(self).trace(), final(self).trace()),
                slot_number(r),
                final(self)@,
            ),
    {
        reveal(finds_slot);
        let ghost m = self@;
        let ghost t = self.trace();
        proof {
            lemma_one(t, Event::HeapFree { p: 0 });
            self.lemma_stays(*old(self));
        }
        match self.mgr.find_free_chunk() {
            Some(i) => Some(i),
            None => {
                let ghost n = self@;
                assert(forall|i: int| 0 <= i < m.chunks.len() ==> (#[trigger] m.chunks[i]).backing
                    != 0);
                proof {
                    assert forall|i: int| 0 <= i < m.chunks.len() implies m.candidate(i)
                        == n.candidate(i) by {}
                }
                if !self.evict_lowest() {
                    return None;
                }
                let ghost o = self@;
                let r = self.mgr.find_free_chunk();
                proof {
                    assert(evict_step(n, since(t, self.trace()), o));
                    reveal(evict_step);
                    let (ranks, i) = choose|ranks: Seq<Rank>, i: int| #[trigger]
                        evicts(n, ranks, i, since(t, self.trace())) && o == after_evict_scan(
                            n,
                        ).evicted(i);
                    assert(o.chunks[i].backing == 0);
                }
                r
            },
        }
    }

    /// A slot and memory for a chunk of `asset`; the memory is 0 if either is not to be
    /// had.
    fn find_room(&mut self, asset: u32, size: usize) -> (r: (Option<usize>, usize))
        requires
            old(self).wf(),
            asset < old(self)@.assets.len(),
        ensures
            final(self).wf(),
            final(self).reclaim == old(self).reclaim,
            only_evicted(old(self)@, final(self)@),
            r.1 != 0 ==> r.0 is Some && r.0->0 < final(self)@.chunks.len()
                && final(self)@.chunks[r.0->0 as int].backing == 0,
            full(old(self)@) ==> r.1 == 0 && final(self)@.chunks == old(self)@.chunks,
            final(self).follows(*old(self)),
            finds_room(
                old(self)@,
                asset,
                size,
                old(self).reclaim,
                since(old(self).trace(), final(self).trace()),
                slot_number(r.0),
                r.1,
                final(self)@,
            ),
    {
        reveal(finds_room);
        let ghost m = self@;
        let ghost t = self.trace();
        let slot: Option<usize> = self.reserve_slot();
        let ghost a = self@;
        let ghost u = self.trace();
        let ghost mid = *self;
        if slot.is_none() {
            proof {
                let ev = since(t, u);
                assert(ev.take(ev.len() as int) =~= ev);
                assert(finds_slot(m, ev.take(ev.len() as int), slot_number(slot), a));
            }
            return (slot, 0);
        }
        let p: usize = self.alloc_backing(size, asset);
        let ghost b = self@;
        proof {
            lemma_only_evicted_trans(m, a, b);
            let i = slot->0 as int;
            assert(kept_or_evicted(a.chunks[i], b.chunks[i], a.protect));
            lemma_since(t, u, self.trace());
            mid.lemma_follows(*old(self), *self);
            let ev = since(t, self.trace());
            let k = since(t, u).len() as int;
            assert(finds_slot(m, ev.take(k), slot_number(slot), a));
        }
        (slot, p)
    }

    // ---- acquiring, requesting, adopting ----

    /// Acquires chunk `index` of `asset` under a hard lease, rebuilding it if it is not
    /// resident. Gives its address, or 0 if there is no memory or it cannot be
    /// rebuilt. A resident chunk keeps its address.
    pub fn acquire(&mut self, asset: u32, index: u32, size: usize) -> (r: usize)
        requires
            old(self).wf(),
        ensures
            final(self).wf(),
            final(self).reclaim == old(self).reclaim,
            acquire_outcome(old(self)@, asset, index, size, r, final(self)@),
            final(self).follows(*old(self)),
            acquire_asks(
                old(self)@,
                asset,
                index,
                size,
                old(self).reclaim,
                since(old(self).trace(), final(self).trace()),
                r,
                final(self)@,
            ),
    {
        let ghost m = self@;
        proof {
            reveal(acquire_outcome);
            reveal(acquire_asks);
            lemma_resident(m, asset, index);
            lemma_one(self.trace(), Event::HeapFree { p: 0 });
            self.lemma_stays(*old(self));
        }
        match self.mgr.begin_acquire(asset, index) {
            Begin::Refused => 0,
            Begin::Hit(p) => p,
            Begin::Miss { previous } => {
                let ghost a = self@;
                assert(a == acquire_begun(m, asset, index));
                let p: usize = self.acquire_missing(asset, index, size);
                let ghost b = self@;
                self.mgr.end_reserve(previous);
                proof {
                    lemma_unprotect(m, a, b, self@);
                    assert(self@.protecting(m.protection(asset)) == b);
                }
                p
            },
        }
    }

    /// Acquires a chunk that is not resident, with its asset's protection in force.
    fn acquire_missing(&mut self, asset: u32, index: u32, size: usize) -> (r: usize)
        requires
            old(self).wf(),
            asset < old(self)@.assets.len(),
            old(self)@.resident(asset, index) is None,
        ensures
            final(self).wf(),
            final(self).reclaim == old(self).reclaim,
            final(self)@.protect == old(self)@.protect,
            r == 0 ==> {
                let m = old(self)@;
                let n = final(self)@;
                &&& (n.tick == m.tick && n.alloc_gen == m.alloc_gen) || (n.tick
                    == m.tick.wrapping_add(1) && n.alloc_gen == m.alloc_gen.wrapping_add(1))
                &&& only_evicted(Model { tick: n.tick, alloc_gen: n.alloc_gen, ..m }, n)
            },
            r != 0 ==> exists|i: int|
                #[trigger] newly_reserved(
                    old(self)@,
                    final(self)@,
                    i,
                    r,
                    asset,
                    index,
                    size,
                    true,
                    old(self)@.protect,
                ),
            full(old(self)@) ==> r == 0 && final(self)@.chunks == old(self)@.chunks,
            final(self).follows(*old(self)),
            acquires_missing(
                old(self)@,
                asset,
                index,
                size,
                old(self).reclaim,
                since(old(self).trace(), final(self).trace()),
                r,
                final(self)@,
            ),
    {
        let ghost m = self@;
        let ghost t = self.trace();
        let (slot, p): (Option<usize>, usize) = self.find_room(asset, size);
        let ghost b = self@;
        let ghost u = self.trace();
        let ghost first = *self;
        proof {
            lemma_one(u, Event::HeapFree { p: 0 });
            lemma_since(t, u, u);
        }
        if p == 0 {
            proof {
                lemma_not_acquired(
                    m,
                    asset,
                    index,
                    size,
                    self.reclaim,
                    since(t, u),
                    slot_number(slot),
                    b,
                );
            }
            return 0;
        }
        let i: usize = match slot {
            Some(i) => i,
            None => {
                return 0;
            },
        };
        let build = self.mgr.commit_acquire(i, p, asset, index, size);
        let ghost c = self@;
        proof {
            assert(kept_or_evicted(m.chunks[i as int], b.chunks[i as int], m.protect));
            assert(c.chunks[i as int] == fresh_chunk(c, p, asset, index, size, true));
            assert forall|j: int| 0 <= j < m.chunks.len() && j != i implies kept_or_evicted(
                m.chunks[j],
                #[trigger] c.chunks[j],
                m.protect,
            ) by {
                assert(c.chunks[j] == b.chunks[j]);
            }
            assert(newly_reserved(m, c, i as int, p, asset, index, size, true, m.protect));
            reserving_keeps_keys_unique(m, c, i as int, p, asset, index, size, true, m.protect);
        }
        let ok = match build {
            Some(f) => self.ask_materialize(f, size),
            None => true,
        };
        let ghost v = self.trace();
        let ghost second = *self;
        proof {
            if build is None {
                second.lemma_stays(first);
            }
            first.lemma_follows(*old(self), second);
            if build is Some {
                lemma_one(u, Event::Materialize { build: build->0, len: size, ok });
            }
            lemma_since(t, u, v);
        }
        if ok {
            proof {
                let ev = since(t, v);
                let k = since(t, u).len() as int;
                assert(builds(b, i as int, p, asset, index, size, ev.skip(k), p, c));
                lemma_acquired(m, asset, index, size, self.reclaim, ev, k, i as int, p, b, p, c);
            }
            return p;
        }
        self.mgr.roll_back(i);
        proof {
            let n = self@;
            assert(n.chunks =~= b.chunks);
        }
        self.free_backing(p, asset);
        proof {
            let w = self.trace();
            lemma_since(u, v, w);
            second.lemma_follows(*old(self), *self);
            lemma_since(t, u, w);
            let ev = since(t, w);
            let k = since(t, u).len() as int;
            assert(since(u, w)[0] == since(u, v)[0]);
            assert(since(u, w).skip(1) =~= since(v, w));
            assert(builds(b, i as int, p, asset, index, size, ev.skip(k), 0, self@));
            lemma_acquired(m, asset, index, size, self.reclaim, ev, k, i as int, p, b, 0, self@);
        }
        0
    }

    /// Reserves and initialises, but does not load, chunk `index` of `asset` under a
    /// hard lease. Gives its address, or 0 if there is no memory, the table is full and
    /// nothing may be evicted, or the asset is not requestable.
    pub fn request_ptr(&mut self, asset: u32, index: u32, size: usize) -> (r: usize)
        requires
            old(self).wf(),
        ensures
            final(self).wf(),
            final(self).reclaim == old(self).reclaim,
            request_outcome(old(self)@, asset, index, size, r, final(self)@),
            final(self).follows(*old(self)),
            request_asks(
                old(self)@,
                asset,
                index,
                size,
                old(self).reclaim,
                since(old(self).trace(), final(self).trace()),
                r,
                final(self)@,
            ),
    {
        self.request_new(asset, index, size).0
    }

    /// As `request_ptr`; says too whether the chunk is new, and was not resident before.
    pub fn request_new(&mut self, asset: u32, index: u32, size: usize) -> (r: (usize, bool))
        requires
            old(self).wf(),
        ensures
            final(self).wf(),
            final(self).reclaim == old(self).reclaim,
            request_outcome(old(self)@, asset, index, size, r.0, final(self)@),
            r.1 == (r.0 != 0 && old(self)@.resident(asset, index) is None),
            final(self).follows(*old(self)),
            request_asks(
                old(self)@,
                asset,
                index,
                size,
                old(self).reclaim,
                since(old(self).trace(), final(self).trace()),
                r.0,
                final(self)@,
            ),
    {
        let ghost m = self@;
        proof {
            reveal(request_outcome);
            reveal(request_asks);
            lemma_resident(m, asset, index);
            lemma_one(self.trace(), Event::HeapFree { p: 0 });
            self.lemma_stays(*old(self));
        }
        match self.mgr.begin_request(asset, index) {
            Begin::Refused => (0, false),
            Begin::Hit(p) => (p, false),
            Begin::Miss { previous } => {
                let ghost a = self@;
                assert(a == request_begun(m, asset, index));
                let p: usize = self.request_missing(asset, index, size);
                let ghost b = self@;
                self.mgr.end_reserve(previous);
                proof {
                    lemma_unprotect(m, a, b, self@);
                    assert(self@.protecting(m.protection(asset)) == b);
                }
                (p, p != 0)
            },
        }
    }

    /// Requests a chunk that is not resident, with its asset's protection in force.
    fn request_missing(&mut self, asset: u32, index: u32, size: usize) -> (r: usize)
        requires
            old(self).wf(),
            old(self)@.requestable(asset),
            old(self)@.resident(asset, index) is None,
        ensures
            final(self).wf(),
            final(self).reclaim == old(self).reclaim,
            final(self)@.protect == old(self)@.protect,
            r == 0 ==> only_evicted(old(self)@, final(self)@),
            r != 0 ==> exists|i: int|
                #[trigger] newly_reserved(
                    old(self)@,
                    final(self)@,
                    i,
                    r,
                    asset,
                    index,
                    size,
                    false,
                    old(self)@.protect,
                ),
            full(old(self)@) ==> r == 0 && final(self)@.chunks == old(self)@.chunks,
            final(self).follows(*old(self)),
            requests_missing(
                old(self)@,
                asset,
                index,
                size,
                old(self).reclaim,
                since(old(self).trace(), final(self).trace()),
                r,
                final(self)@,
            ),
    {
        reveal(requests_missing);
        let ghost m = self@;
        let ghost t = self.trace();
        let (slot, p): (Option<usize>, usize) = self.find_room(asset, size);
        let ghost b = self@;
        let ghost u = self.trace();
        let ghost mid = *self;
        if p == 0 {
            assert(finds_room(
                m,
                asset,
                size,
                self.reclaim,
                since(t, u),
                slot_number(slot),
                0,
                b,
            ));
            return 0;
        }
        let i: usize = match slot {
            Some(i) => i,
            None => {
                return 0;
            },
        };
        let build = self.mgr.commit_request(i, p, asset, index, size);
        let ghost c = self@;
        proof {
            assert(kept_or_evicted(m.chunks[i as int], b.chunks[i as int], m.protect));
            assert(c.chunks[i as int] == fresh_chunk(c, p, asset, index, size, false));
            assert forall|j: int| 0 <= j < m.chunks.len() && j != i implies kept_or_evicted(
                m.chunks[j],
                #[trigger] c.chunks[j],
                m.protect,
            ) by {
                assert(c.chunks[j] == b.chunks[j]);
            }
            assert(newly_reserved(m, c, i as int, p, asset, index, size, false, m.protect));
            reserving_keeps_keys_unique(m, c, i as int, p, asset, index, size, false, m.protect);
        }
        self.ask_construct(build);
        proof {
            assert(self@ == c);
            lemma_one(u, Event::Construct { build });
            lemma_since(t, u, self.trace());
            mid.lemma_follows(*old(self), *self);
            let ev = since(t, self.trace());
            assert(ev.drop_last() =~= since(t, u));
            assert(finds_room(
                m,
                asset,
                size,
                self.reclaim,
                ev.drop_last(),
                slot_number(slot),
                p,
                b,
            ));
        }
        p
    }

    /// Adopts the memory `p`, which the caller allocated and built, as a resident chunk
    /// without a lease, which may be evicted. Gives `p`, or 0 if `p` is 0 or the
    /// table is full and nothing may be evicted.
    pub fn adopt(
        &mut self,
        p: usize,
        size: usize,
        cost: u32,
        ctx: usize,
        on_evict: Option<usize>,
    ) -> (r: usize)
        requires
            old(self).wf(),
        ensures
            final(self).wf(),
            final(self).reclaim == old(self).reclaim,
            r == (if p == 0 || full(old(self)@) { 0 } else { p }),
            p == 0 ==> final(self)@ == old(self)@ && final(self).trace() == old(self).trace(),
            final(self).follows(*old(self)),
            p != 0 ==> adopts(
                old(self)@,
                p,
                size,
                cost,
                ctx,
                on_evict,
                since(old(self).trace(), final(self).trace()),
                r,
                final(self)@,
            ),
            r != 0 ==> exists|i: int|
                reserved(
                    old(self)@,
                    final(self)@,
                    i,
                    #[trigger] adopted_in(final(self)@, i, p, size, cost, ctx, on_evict),
                    old(self)@.protect,
                ),
    {
        let ghost m = self@;
        let ghost t = self.trace();
        proof {
            lemma_one(t, Event::HeapFree { p: 0 });
            self.lemma_stays(*old(self));
        }
        if p == 0 {
            return 0;
        }
        let slot: Option<usize> = self.reserve_slot();
        let ghost a = self@;
        proof {
            assert(finds_slot(m, since(t, self.trace()), slot_number(slot), a));
        }
        let i: usize = match slot {
            Some(i) => i,
            None => {
                return 0;
            },
        };
        proof {
            assert(kept_or_evicted(m.chunks[i as int], a.chunks[i as int], m.protect));
        }
        self.mgr.commit_adopt(i, p, size, cost, ctx, on_evict);
        proof {
            let c = self@;
            assert forall|j: int| 0 <= j < m.chunks.len() && j != i implies kept_or_evicted(
                m.chunks[j],
                #[trigger] c.chunks[j],
                m.protect,
            ) by {
                assert(c.chunks[j] == a.chunks[j]);
            }
            assert(reserved(
                m,
                c,
                i as int,
                adopted_in(c, i as int, p, size, cost, ctx, on_evict),
                m.protect,
            ));
        }
        p
    }

    /// Drops the resident chunk at `p`, whose owner is discarding it: empties its slot
    /// and frees its memory, without telling the owner.
    pub fn evict_chunk(&mut self, p: usize)
        requires
            old(self).wf(),
        ensures
            final(self).wf(),
            final(self).reclaim == old(self).reclaim,
            final(self)@ == old(self)@.evict_chunk(p),
            final(self).follows(*old(self)),
            match old(self)@.slot_at(p) {
                Some(i) => frees(
                    old(self)@.slab_of(old(self)@.chunks[i].asset),
                    p,
                    since(old(self).trace(), final(self).trace()),
                ),
                None => final(self).trace() == old(self).trace(),
            },
    {
        proof {
            lemma_slot_at(self@, p);
            lemma_one(self.trace(), Event::HeapFree { p: 0 });
            self.lemma_stays(*old(self));
        }
        match self.mgr.evict_chunk(p) {
            Some(e) => self.free_backing(e.backing, e.asset),
            None => {},
        }
    }

    /// Retires an asset: drops the chunks of it that are resident, leased or not, as if
    /// each were evicted, and frees the asset's slot. Chunks go in slot order, or from
    /// the highest index down if the asset is evicted tail first. Gives the slots in
    /// the order in which they were dropped. Does nothing if the asset is not in use.
    pub fn release_asset(&mut self, asset: u32) -> (order: Vec<usize>)
        requires
            old(self).wf(),
        ensures
            final(self).wf(),
            final(self).reclaim == old(self).reclaim,
            !old(self)@.usable(asset) ==> final(self)@ == old(self)@ && order@.len() == 0,
            old(self)@.usable(asset) ==> {
                &&& retired(old(self)@, asset, final(self)@)
                &&& retired_in_order(old(self)@, asset, order@)
                &&& forall|j: int|
                    0 <= j < old(self)@.chunks.len() && #[trigger] old(self)@.of_asset(j, asset)
                        ==> order@.contains(j as usize)
            },
            final(self).follows(*old(self)),
            retires(
                old(self)@,
                asset,
                order@,
                since(old(self).trace(), final(self).trace()),
            ),
    {
        let ghost m = self@;
        let ghost t = self.trace();
        proof {
            lemma_one(t, Event::HeapFree { p: 0 });
            self.lemma_stays(*old(self));
        }
        let mut order: Vec<usize> = Vec::new();
        proof {
            lemma_retires_none(m, asset, order@, since(t, t));
        }
        let a = match self.mgr.retire_begin(asset) {
            Some(a) => a,
            None => {
                return order;
            },
        };
        let mut from: usize = 0;
        let mut more = true;
        while more
            invariant
                self.wf(),
                self.reclaim == old(self).reclaim,
                m.usable(asset),
                a == m.assets[asset as int],
                m.consistent(),
                retiring(m, asset, order@, self@),
                retired_in_order(m, asset, order@),
                a.evict_tail_first ==> tail_left(m, asset, order@, self@),
                a.evict_tail_first || forall|j: int|
                    0 <= j < from && j < m.chunks.len() ==> !#[trigger] self@.of_asset(j, asset),
                !a.evict_tail_first ==> forall|k: int| 0 <= k < order@.len() ==> order@[k] < from,
                !more ==> forall|j: int|
                    0 <= j < m.chunks.len() ==> !#[trigger] self@.of_asset(j, asset),
                t == old(self).trace(),
                self.follows(*old(self)),
                retires(m, asset, order@, since(t, self.trace())),
            decreases (if more { 1int } else { 0int }), occupied_count(self@.chunks),
        {
            let ghost n = self@;
            let ghost u = self.trace();
            let ghost mid = *self;
            match self.mgr.retire_next(asset, a, from) {
                Some((i, e)) => {
                    proof {
                        lemma_retired_step(m, asset, a, order@, n, from as int, i as int);
                        lemma_occupied_count(n.chunks, i as int);
                    }
                    let ghost so_far = order@;
                    order.push(i);
                    self.settle(e);
                    from = i + 1;
                    proof {
                        lemma_since(t, u, self.trace());
                        mid.lemma_follows(*old(self), *self);
                        lemma_retires_one(
                            m,
                            asset,
                            so_far,
                            i,
                            since(t, u),
                            since(u, self.trace()),
                        );
                        if !a.evict_tail_first {
                            assert forall|j: int|
                                0 <= j < from && j < m.chunks.len() implies !#[trigger] self@.of_asset(
                                j,
                                asset,
                            ) by {
                                assert(j == i || !n.of_asset(j, asset));
                            }
                        }
                    }
                },
                None => {
                    proof {
                        assert forall|j: int| 0 <= j < m.chunks.len() implies !#[trigger] self@.of_asset(
                            j,
                            asset,
                        ) by {
                            assert(!n.of_asset(j, asset));
                        }
                    }
                    more = false;
                },
            }
        }
        let ghost n = self@;
        self.mgr.retire_end(asset);
        proof {
            lemma_retired_end(m, asset, order@, n);
        }
        order
    }

    // ---- queries, leases and the load queue ----

    /// The chunk `index` of `asset` if it is resident, loaded or not. Takes no lease and
    /// does not change the eviction order.
    pub fn peek(&mut self, asset: u32, index: u32) -> (r: Option<Chunk>)
        requires
            old(self).wf(),
        ensures
            final(self).wf(),
            final(self).reclaim == old(self).reclaim,
            final(self).backend == old(self).backend,
            final(self).trace() == old(self).trace(),
            final(self)@ == old(self)@.searched(asset, index),
            chunk_addr(r) == old(self)@.peek_result(asset, index),
            r is Some <==> chunk_addr(r) != 0,
    {
        Chunk::from_ptr(self.mgr.peek(asset, index))
    }

    /// Reserves chunk `index` of `asset` without loading it, and gives the lease on it.
    /// Nothing if there is no memory, the table is full and nothing may be evicted, or
    /// the asset is not requestable.
    pub fn request(&mut self, asset: u32, index: u32, size: usize) -> (r: Option<Lease>)
        requires
            old(self).wf(),
        ensures
            final(self).wf(),
            final(self).reclaim == old(self).reclaim,
            request_outcome(old(self)@, asset, index, size, lease_addr(r), final(self)@),
            r is Some <==> lease_addr(r) != 0,
            final(self).follows(*old(self)),
            request_asks(
                old(self)@,
                asset,
                index,
                size,
                old(self).reclaim,
                since(old(self).trace(), final(self).trace()),
                lease_addr(r),
                final(self)@,
            ),
    {
        Lease::taken(self.request_ptr(asset, index, size))
    }

    /// Says that a requested chunk's data has been read.
    pub fn mark_ready(&mut self, chunk: Chunk)
        requires
            old(self).wf(),
        ensures
            final(self).wf(),
            final(self).reclaim == old(self).reclaim,
            final(self).backend == old(self).backend,
            final(self).trace() == old(self).trace(),
            final(self)@ == old(self)@.mark_ready(chunk@),
    {
        let ghost m = self@;
        self.mgr.mark_ready(chunk.as_ptr());
        proof {
            lemma_keys_stay(m, self@);
        }
    }

    /// The slot of `chunk`, or `NO_SLOT` if it is not resident.
    pub fn slot_of(&mut self, chunk: Chunk) -> (r: u32)
        requires
            old(self).wf(),
        ensures
            final(self).wf(),
            final(self).reclaim == old(self).reclaim,
            final(self).backend == old(self).backend,
            final(self).trace() == old(self).trace(),
            final(self)@ == old(self)@.searched_ptr(chunk@),
            match old(self)@.slot_at(chunk@) {
                Some(i) => r == i,
                None => r == NO_SLOT,
            },
    {
        self.mgr.slot_of(chunk.as_ptr())
    }

    /// The asset and index of `chunk`, if it is resident.
    pub fn chunk_ident(&mut self, chunk: Chunk) -> (r: Option<(u32, u32)>)
        requires
            old(self).wf(),
        ensures
            final(self).wf(),
            final(self).reclaim == old(self).reclaim,
            final(self).backend == old(self).backend,
            final(self).trace() == old(self).trace(),
            final(self)@ == old(self)@.searched_ptr(chunk@),
            match old(self)@.slot_at(chunk@) {
                Some(i) => r == Some((old(self)@.chunks[i].asset, old(self)@.chunks[i].index)),
                None => r is None,
            },
    {
        self.mgr.chunk_ident(chunk.as_ptr())
    }

    /// Queues the chunk in `slot` for loading; lower is more urgent.
    pub fn loader_enqueue(&mut self, slot: u32, priority: u32)
        requires
            old(self).wf(),
        ensures
            final(self).wf(),
            final(self).reclaim == old(self).reclaim,
            final(self).backend == old(self).backend,
            final(self).trace() == old(self).trace(),
            final(self)@ == old(self)@.enqueue(slot, priority),
    {
        let ghost m = self@;
        self.mgr.loader_enqueue(slot, priority);
        proof {
            lemma_keys_stay(m, self@);
        }
    }

    /// Takes the chunk in `slot` out of the load queue.
    pub fn loader_remove(&mut self, slot: u32)
        requires
            old(self).wf(),
        ensures
            final(self).wf(),
            final(self).reclaim == old(self).reclaim,
            final(self).backend == old(self).backend,
            final(self).trace() == old(self).trace(),
            final(self)@ == old(self)@.dequeue(slot),
    {
        let ghost m = self@;
        self.mgr.loader_remove(slot);
        proof {
            lemma_keys_stay(m, self@);
        }
    }

    /// Takes the most urgent queued chunk that is still leased off the queue. It holds
    /// no lease of its own: whoever requested the chunk does.
    pub fn loader_next(&mut self) -> (r: Option<Chunk>)
        requires
            old(self).wf(),
        ensures
            final(self).wf(),
            final(self).reclaim == old(self).reclaim,
            final(self).backend == old(self).backend,
            final(self).trace() == old(self).trace(),
            final(self)@ == old(self)@.popped(),
            match old(self)@.next_up() {
                Some(i) => r is Some && r->0@ == old(self)@.chunks[i].backing,
                None => r is None,
            },
    {
        let p: usize = self.mgr.loader_next();
        proof {
            lemma_keys_stay(old(self)@, self@);
        }
        Chunk::from_ptr(p)
    }

    /// The hard leases on the chunk in `slot`.
    pub fn lease_count_by_slot(&self, slot: u32) -> (r: u32)
        requires
            self.wf(),
        ensures
            r == (if self@.live(slot) { self@.chunks[slot as int].leases } else { 0 }),
    {
        self.mgr.lease_count_by_slot(slot)
    }

    /// Takes one hard lease on `chunk`.
    pub fn lease(&mut self, chunk: Chunk) -> (r: Lease)
        requires
            old(self).wf(),
        ensures
            final(self).wf(),
            final(self).reclaim == old(self).reclaim,
            final(self).backend == old(self).backend,
            final(self).trace() == old(self).trace(),
            final(self)@ == old(self)@.add_lease(chunk@),
            r@ == chunk@,
    {
        self.mgr.add_lease(chunk.as_ptr());
        proof {
            lemma_keys_stay(old(self)@, self@);
        }
        Lease::of(chunk)
    }

    /// Gives a lease back: one hard lease fewer on its chunk.
    pub fn release_lease(&mut self, lease: Lease)
        requires
            old(self).wf(),
        ensures
            final(self).wf(),
            final(self).reclaim == old(self).reclaim,
            final(self).backend == old(self).backend,
            final(self).trace() == old(self).trace(),
            final(self)@ == old(self)@.release(lease@),
    {
        self.mgr.release(lease.chunk.as_ptr());
        proof {
            lemma_keys_stay(old(self)@, self@);
        }
    }

    /// Gives a lease back from either context: the count changes inside one window of the
    /// critical section, which the audio interrupt does not enter.
    pub fn drop_lease<M: InterruptMask>(&mut self, mask: &mut M, lease: Lease)
        requires
            old(self).wf(),
        ensures
            final(self).wf(),
            final(self).reclaim == old(self).reclaim,
            final(self).backend == old(self).backend,
            final(self).trace() == old(self).trace(),
            final(self)@ == old(self)@.release(lease@),
            final(mask).state() == (if old(self)@.slot_at(lease@) is Some {
                after_window(old(mask).state())
            } else {
                old(mask).state()
            }),
    {
        let p: usize = lease.chunk.as_ptr();
        match self.mgr.find_by_ptr(p) {
            Some(i) => {
                let window = Masked::enter(mask);
                self.mgr.release_at(i, p);
                window.exit(mask);
            },
            None => {},
        }
        proof {
            lemma_keys_stay(old(self)@, self@);
        }
    }

    /// The lease on chunk `index` of `asset` if it is resident and ready. Never allocates.
    pub fn acquire_leased(&mut self, asset: u32, index: u32) -> (r: Option<Lease>)
        requires
            old(self).wf(),
        ensures
            final(self).wf(),
            final(self).reclaim == old(self).reclaim,
            final(self).backend == old(self).backend,
            final(self).trace() == old(self).trace(),
            final(self)@ == old(self)@.try_acquire(asset, index),
            lease_addr(r) == old(self)@.try_acquire_result(asset, index),
            r is Some <==> lease_addr(r) != 0,
    {
        let p: usize = self.mgr.try_acquire(asset, index);
        proof {
            lemma_keys_stay(old(self)@, self@);
        }
        Lease::taken(p)
    }

    /// The token of an independent pin on `chunk`: its slot and the generation stamped on
    /// it. 0 if the chunk is not resident.
    pub fn pin_token(&mut self, chunk: Chunk) -> (r: u64)
        requires
            old(self).wf(),
        ensures
            final(self).wf(),
            final(self).reclaim == old(self).reclaim,
            final(self).backend == old(self).backend,
            final(self).trace() == old(self).trace(),
            final(self)@ == old(self)@.searched_ptr(chunk@),
            r == pin_token_of(old(self)@, chunk@),
    {
        proof {
            lemma_slot_at(self@, chunk@);
        }
        let slot: u32 = self.mgr.slot_of(chunk.as_ptr());
        if slot == NO_SLOT {
            return 0;
        }
        let gen: u32 = self.mgr.generation_of_slot(slot);
        if gen == 0 {
            return 0;
        }
        proof {
            lemma_token(slot, gen);
        }
        ((slot as u64) << 32u64) | (gen as u64)
    }

    /// Takes an independent pin: one more lease, if the token's slot still holds the chunk
    /// that the token was made for.
    pub fn retain_token(&mut self, token: u64)
        requires
            old(self).wf(),
        ensures
            final(self).wf(),
            final(self).reclaim == old(self).reclaim,
            final(self).backend == old(self).backend,
            final(self).trace() == old(self).trace(),
            final(self)@ == (if token == 0 {
                old(self)@
            } else {
                old(self)@.retain(token_slot(token), token_gen(token))
            }),
    {
        if token == 0 {
            return;
        }
        proof {
            lemma_token_parts(token);
        }
        let slot: u32 = (token >> 32u64) as u32;
        let gen: u32 = token as u32;
        let _ = self.mgr.retain_by_slot_gen(slot, gen);
        proof {
            lemma_keys_stay(old(self)@, self@);
        }
    }

    /// Gives an independent pin back, if the token's slot still holds the chunk that the
    /// token was made for.
    pub fn release_token(&mut self, token: u64)
        requires
            old(self).wf(),
        ensures
            final(self).wf(),
            final(self).reclaim == old(self).reclaim,
            final(self).backend == old(self).backend,
            final(self).trace() == old(self).trace(),
            final(self)@ == (if token == 0 {
                old(self)@
            } else {
                old(self)@.release_slot(token_slot(token), token_gen(token))
            }),
    {
        if token == 0 {
            return;
        }
        proof {
            lemma_token_parts(token);
        }
        let slot: u32 = (token >> 32u64) as u32;
        let gen: u32 = token as u32;
        let _ = self.mgr.release_by_slot_gen(slot, gen);
        proof {
            lemma_keys_stay(old(self)@, self@);
        }
    }

    /// Whether `chunk` is resident and its data has been read.
    pub fn is_ready(&mut self, chunk: Chunk) -> (r: bool)
        requires
            old(self).wf(),
        ensures
            final(self).wf(),
            final(self).reclaim == old(self).reclaim,
            final(self).backend == old(self).backend,
            final(self).trace() == old(self).trace(),
            final(self)@ == old(self)@.searched_ptr(chunk@),
            match old(self)@.slot_at(chunk@) {
                Some(i) => r == old(self)@.chunks[i].ready,
                None => !r,
            },
    {
        self.mgr.is_ready_by_ptr(chunk.as_ptr())
    }
}

/// The address of a chunk, or 0.
pub open spec fn chunk_addr(r: Option<Chunk>) -> usize {
    match r {
        Some(c) => c@,
        None => 0,
    }
}

/// The address of a leased chunk, or 0.
pub open spec fn lease_addr(r: Option<Lease>) -> usize {
    match r {
        Some(l) => l@,
        None => 0,
    }
}

/// A pin token: a slot number and a generation.
pub open spec fn token_of(slot: u32, gen: u32) -> u64 {
    (slot * 0x1_0000_0000 + gen) as u64
}

/// The slot of a token.
pub open spec fn token_slot(token: u64) -> u32 {
    (token / 0x1_0000_0000) as u32
}

/// The generation of a token.
pub open spec fn token_gen(token: u64) -> u32 {
    (token % 0x1_0000_0000) as u32
}

/// The tables after the chunk at `p` was looked up and queued at `priority`.
pub open spec fn queued_at(m: Model, p: usize, priority: u32) -> Model {
    let n = m.searched_ptr(p);
    n.enqueue(
        match m.slot_at(p) {
            Some(i) => i as u32,
            None => NO_SLOT,
        },
        priority,
    )
}

/// The token of the chunk at `p`: 0 if it is not resident.
pub open spec fn pin_token_of(m: Model, p: usize) -> u64 {
    match m.slot_at(p) {
        Some(i) => if m.chunks[i].generation == 0 {
            0
        } else {
            token_of(i as u32, m.chunks[i].generation)
        },
        None => 0,
    }
}

proof fn lemma_token(slot: u32, gen: u32)
    ensures
        ((slot as u64) << 32u64) | (gen as u64) == token_of(slot, gen),
{
    assert(((slot as u64) << 32u64) | (gen as u64) == (slot as u64) * 0x1_0000_0000u64 + (
    gen as u64)) by (bit_vector);
}

proof fn lemma_token_parts(token: u64)
    ensures
        (token >> 32u64) as u32 == token_slot(token),
        token as u32 == token_gen(token),
{
    assert((token >> 32u64) == token / 0x1_0000_0000u64) by (bit_vector);
    assert(token as u32 as u64 == token % 0x1_0000_0000u64) by (bit_vector);
}

/// Without room nothing is acquired.
proof fn lemma_not_acquired(
    m: Model,
    asset: u32,
    index: u32,
    size: usize,
    reclaim: bool,
    ev: Seq<Event>,
    slot: Option<int>,
    n: Model,
)
    requires
        finds_room(m, asset, size, reclaim, ev, slot, 0, n),
    ensures
        acquires_missing(m, asset, index, size, reclaim, ev, 0, n),
{
    reveal(acquires_missing);
    let k = ev.len() as int;
    assert(ev.take(k) =~= ev);
    assert(finds_room(m, asset, size, reclaim, ev.take(k), slot, 0, n));
}

/// The steps of acquiring a chunk, put together.
proof fn lemma_acquired(
    m: Model,
    asset: u32,
    index: u32,
    size: usize,
    reclaim: bool,
    ev: Seq<Event>,
    k: int,
    i: int,
    p: usize,
    b: Model,
    r: usize,
    n: Model,
)
    requires
        0 <= k <= ev.len(),
        p != 0,
        finds_room(m, asset, size, reclaim, ev.take(k), Some(i), p, b),
        builds(b, i, p, asset, index, size, ev.skip(k), r, n),
    ensures
        acquires_missing(m, asset, index, size, reclaim, ev, r, n),
{
    reveal(acquires_missing);
}

/// `n` is `m` without the asset and all its chunks.
pub open spec fn retired(m: Model, asset: u32, n: Model) -> bool {
    &&& n.slab == m.slab
    &&& n.tick == m.tick
    &&& n.protect == m.protect
    &&& n.stats == m.stats
    &&& n.alloc_gen == m.alloc_gen
    &&& n.assets == m.assets.update(asset as int, AssetSlot::spec_empty())
    &&& n.chunks == Seq::new(
        m.chunks.len(),
        |i: int|
            if m.of_asset(i, asset) {
                ChunkSlot::spec_empty()
            } else {
                m.chunks[i]
            },
    )
}

/// `order` is how the chunks of `asset` are dropped: each of them once, in slot order, or
/// with the index falling if the asset is evicted tail first.
pub open spec fn retired_in_order(m: Model, asset: u32, order: Seq<usize>) -> bool {
    &&& forall|k: int|
        0 <= k < order.len() ==> (#[trigger] order[k]) < m.chunks.len() && m.of_asset(
            order[k] as int,
            asset,
        )
    &&& forall|k: int, l: int|
        0 <= k < l < order.len() ==> if m.assets[asset as int].evict_tail_first {
            tail_above(m, #[trigger] order[k] as int, #[trigger] order[l] as int)
        } else {
            order[k] < order[l]
        }
}

/// The slots of `order` have been emptied, and nothing else happened.
spec fn retiring(m: Model, asset: u32, order: Seq<usize>, n: Model) -> bool {
    &&& n == (Model { chunks: n.chunks, chains: n.chains, ..m })
    &&& n.chunks.len() == m.chunks.len()
    &&& forall|i: int|
        0 <= i < m.chunks.len() ==> (#[trigger] n.chunks[i]) == (if order.contains(i as usize) {
            ChunkSlot::spec_empty()
        } else {
            m.chunks[i]
        })
}

/// Slot `i` comes before slot `j` when chunks are dropped tail first.
pub open spec fn tail_above(m: Model, i: int, j: int) -> bool {
    m.chunks[i].index > m.chunks[j].index || (m.chunks[i].index == m.chunks[j].index && i > j)
}

/// What is left comes after what was dropped.
spec fn tail_left(m: Model, asset: u32, order: Seq<usize>, n: Model) -> bool {
    forall|k: int, j: int|
        0 <= k < order.len() && 0 <= j < n.chunks.len() && n.of_asset(j, asset)
            ==> #[trigger] tail_above(m, order[k] as int, j)
}

/// Dropping the next chunk keeps the order.
proof fn lemma_retired_step(
    m: Model,
    asset: u32,
    a: AssetSlot,
    order: Seq<usize>,
    n: Model,
    from: int,
    i: int,
)
    requires
        m.chunks.len() <= 0x8000_0000,
        m.usable(asset),
        a == m.assets[asset as int],
        retiring(m, asset, order, n),
        retired_in_order(m, asset, order),
        !a.evict_tail_first ==> forall|k: int| 0 <= k < order.len() ==> order[k] < from,
        a.evict_tail_first ==> tail_left(m, asset, order, n),
        n.next_retired(asset, a.evict_tail_first, from, i),
    ensures
        n.chunks[i] == m.chunks[i],
        retiring(m, asset, order.push(i as usize), n.cleared(i)),
        retired_in_order(m, asset, order.push(i as usize)),
        a.evict_tail_first ==> tail_left(m, asset, order.push(i as usize), n.cleared(i)),
{
    let o = order.push(i as usize);
    let c = n.cleared(i);
    assert(n.of_asset(i, asset));
    assert(!order.contains(i as usize));
    assert(m.of_asset(i, asset));
    assert forall|j: int| 0 <= j < m.chunks.len() implies (#[trigger] c.chunks[j]) == (
    if o.contains(j as usize) {
        ChunkSlot::spec_empty()
    } else {
        m.chunks[j]
    }) by {
        assert(n.chunks[j] == (if order.contains(j as usize) {
            ChunkSlot::spec_empty()
        } else {
            m.chunks[j]
        }));
        if j == i {
            assert(o[order.len() as int] == i as usize);
        } else if order.contains(j as usize) {
            let k = choose|k: int| 0 <= k < order.len() && order[k] == j as usize;
            assert(o[k] == j as usize);
        } else if o.contains(j as usize) {
            let k = choose|k: int| 0 <= k < o.len() && o[k] == j as usize;
            assert(order[k] == j as usize);
        }
    }
    assert forall|k: int, l: int| 0 <= k < l < o.len() implies if m.assets[asset as int].evict_tail_first {
        tail_above(m, #[trigger] o[k] as int, #[trigger] o[l] as int)
    } else {
        o[k] < o[l]
    } by {
        if l == order.len() {
            assert(o[k] == order[k]);
            if a.evict_tail_first {
                assert(tail_above(m, order[k] as int, i));
            }
        } else {
            assert(o[k] == order[k] && o[l] == order[l]);
        }
    }
    assert forall|k: int| 0 <= k < o.len() implies (#[trigger] o[k]) < m.chunks.len() && m.of_asset(
        o[k] as int,
        asset,
    ) by {
        if k < order.len() {
            assert(o[k] == order[k]);
        }
    }
    if a.evict_tail_first {
        assert forall|k: int, j: int|
            0 <= k < o.len() && 0 <= j < c.chunks.len() && c.of_asset(j, asset) implies #[trigger] tail_above(
            m,
            o[k] as int,
            j,
        ) by {
            assert(n.of_asset(j, asset));
            assert(m.chunks[j] == n.chunks[j]);
            if k < order.len() {
                assert(o[k] == order[k]);
                assert(tail_above(m, order[k] as int, j));
            }
        }
    }
}

/// When no chunk is left, the asset is retired.
proof fn lemma_retired_end(m: Model, asset: u32, order: Seq<usize>, n: Model)
    requires
        m.chunks.len() <= 0x8000_0000,
        asset < m.assets.len(),
        retiring(m, asset, order, n),
        retired_in_order(m, asset, order),
        forall|j: int| 0 <= j < m.chunks.len() ==> !#[trigger] n.of_asset(j, asset),
    ensures
        retired(m, asset, n.with_asset(asset, AssetSlot::spec_empty())),
        forall|j: int|
            0 <= j < m.chunks.len() && #[trigger] m.of_asset(j, asset) ==> order.contains(
                j as usize,
            ),
{
    let f = n.with_asset(asset, AssetSlot::spec_empty());
    assert forall|j: int| 0 <= j < m.chunks.len() implies (#[trigger] f.chunks[j]) == (
    if m.of_asset(j, asset) {
        ChunkSlot::spec_empty()
    } else {
        m.chunks[j]
    }) by {
        assert(!n.of_asset(j, asset));
        assert(n.chunks[j] == (if order.contains(j as usize) {
            ChunkSlot::spec_empty()
        } else {
            m.chunks[j]
        }));
        if order.contains(j as usize) {
            let k = choose|k: int| 0 <= k < order.len() && order[k] == j as usize;
            assert(m.of_asset(order[k] as int, asset));
        }
    }
    assert forall|j: int|
        0 <= j < m.chunks.len() && #[trigger] m.of_asset(j, asset) implies order.contains(
        j as usize,
    ) by {
        assert(!n.of_asset(j, asset));
        assert(n.chunks[j] == (if order.contains(j as usize) {
            ChunkSlot::spec_empty()
        } else {
            m.chunks[j]
        }));
    }
    assert(f.chunks =~= Seq::new(
        m.chunks.len(),
        |i: int|
            if m.of_asset(i, asset) {
                ChunkSlot::spec_empty()
            } else {
                m.chunks[i]
            },
    ));
}


/// The chunk that adopting puts in slot `i`.
pub open spec fn adopted_in(
    n: Model,
    i: int,
    p: usize,
    size: usize,
    cost: u32,
    ctx: usize,
    on_evict: Option<usize>,
) -> ChunkSlot {
    ChunkSlot {
        backing: p,
        ready: true,
        recency: n.tick,
        size: size as u32,
        generation: n.alloc_gen,
        cost,
        adopt_evict: on_evict,
        adopt_ctx: ctx,
        ..ChunkSlot::spec_empty()
    }
}

/// The chunk that a reservation puts in its slot, under its first lease.
pub open spec fn fresh_chunk(
    n: Model,
    p: usize,
    asset: u32,
    index: u32,
    size: usize,
    ready: bool,
) -> ChunkSlot {
    ChunkSlot {
        backing: p,
        asset,
        index,
        leases: 1,
        ready,
        recency: n.tick,
        size: size as u32,
        generation: n.alloc_gen,
        ..ChunkSlot::spec_empty()
    }
}

/// `n` is `m` with chunk `c` in slot `i`, and with other chunks possibly evicted while
/// `protect` was protected. The slot was free, or its chunk was evicted.
pub open spec fn reserved(m: Model, n: Model, i: int, c: ChunkSlot, protect: u32) -> bool {
    &&& n.slab == m.slab
    &&& n.assets == m.assets
    &&& n.protect == m.protect
    &&& n.tick == m.tick.wrapping_add(1)
    &&& n.alloc_gen == m.alloc_gen.wrapping_add(1)
    &&& n.chunks.len() == m.chunks.len()
    &&& 0 <= i < m.chunks.len()
    &&& n.chunks[i] == c
    &&& kept_or_evicted(m.chunks[i], ChunkSlot::spec_empty(), protect)
    &&& forall|j: int|
        0 <= j < m.chunks.len() && j != i ==> kept_or_evicted(
            m.chunks[j],
            #[trigger] n.chunks[j],
            protect,
        )
}

/// What a request for `(asset, index)` does to `m`, `r` being the address it gives. A
/// request that is not allowed does nothing; a resident chunk is leased; otherwise a
/// slot and memory are found, by evicting if need be, and `r` is 0 if they are not.
#[verifier::opaque]
pub open spec fn request_outcome(
    m: Model,
    asset: u32,
    index: u32,
    size: usize,
    r: usize,
    n: Model,
) -> bool {
    let prot = m.protection(asset);
    if !m.requestable(asset) {
        r == 0 && n == m
    } else {
        match m.resident(asset, index) {
            Some(i) => {
                &&& r == m.chunks[i].backing
                &&& r != 0
                &&& n == (Model {
                    stats: Stats { requests: m.stats.requests.wrapping_add(1), ..m.stats },
                    ..m
                }).searched(asset, index).hit(i)
            },
            None => {
                &&& r == 0 ==> only_evicted(m.protecting(prot), n.protecting(prot)) && n.protect
                    == m.protect
                &&& r != 0 ==> exists|i: int|
                #[trigger] newly_reserved(m, n, i, r, asset, index, size, false, prot)
                &&& full(m.protecting(prot)) ==> r == 0 && n.chunks == m.chunks
            },
        }
    }
}

/// `n` is `m` with the chunk of `(asset, index)` newly in slot `i`, at address `p`.
pub open spec fn newly_reserved(
    m: Model,
    n: Model,
    i: int,
    p: usize,
    asset: u32,
    index: u32,
    size: usize,
    ready: bool,
    protect: u32,
) -> bool {
    reserved(m, n, i, fresh_chunk(n, p, asset, index, size, ready), protect)
}

/// What is true of a reservation under way, with `protect` in force, is true of the
/// whole.
proof fn lemma_unprotect(m: Model, a: Model, b: Model, n: Model)
    requires
        a == (Model { stats: a.stats, protect: a.protect, ..m }),
        n == b.protecting(m.protect),
        b.protect == a.protect,
    ensures
        only_evicted(a, b) ==> only_evicted(m.protecting(a.protect), n.protecting(a.protect)),
        only_evicted(Model { tick: b.tick, alloc_gen: b.alloc_gen, ..a }, b) ==> only_evicted(
            Model { tick: n.tick, alloc_gen: n.alloc_gen, ..m.protecting(a.protect) },
            n.protecting(a.protect),
        ),
        full(a) == full(m.protecting(a.protect)),
        forall|i: int, p: usize, asset: u32, index: u32, size: usize, ready: bool| #[trigger]
            newly_reserved(a, b, i, p, asset, index, size, ready, a.protect) ==> newly_reserved(
                m,
                n,
                i,
                p,
                asset,
                index,
                size,
                ready,
                a.protect,
            ),
{
    let x = m.protecting(a.protect);
    assert forall|i: int| 0 <= i < m.chunks.len() implies a.candidate(i) == #[trigger] x.candidate(
        i,
    ) by {}
    if full(x) {
        assert forall|i: int| 0 <= i < a.chunks.len() implies (#[trigger] a.chunks[i]).backing != 0
            && !a.candidate(i) by {
            assert(x.chunks[i].backing != 0 && !x.candidate(i));
        }
    }
    if full(a) {
        assert forall|i: int| 0 <= i < x.chunks.len() implies (#[trigger] x.chunks[i]).backing != 0
            && !x.candidate(i) by {
            assert(a.chunks[i].backing != 0 && !a.candidate(i));
        }
    }
}

/// What acquiring `(asset, index)` does to `m`, `r` being the address it gives. As a
/// request, but the chunk is ready, and it is given up again if it cannot be built.
#[verifier::opaque]
pub open spec fn acquire_outcome(
    m: Model,
    asset: u32,
    index: u32,
    size: usize,
    r: usize,
    n: Model,
) -> bool {
    let prot = m.protection(asset);
    if !m.usable(asset) {
        r == 0 && n == m
    } else {
        match m.resident(asset, index) {
            Some(i) => {
                &&& r == m.chunks[i].backing
                &&& r != 0
                &&& n == (Model {
                    stats: Stats {
                        acquires: m.stats.acquires.wrapping_add(1),
                        acquire_hits: m.stats.acquire_hits.wrapping_add(1),
                        ..m.stats
                    },
                    ..m
                }).searched(asset, index).hit(i)
            },
            None => {
                &&& r == 0 ==> {
                    &&& n.protect == m.protect
                    &&& (n.tick == m.tick && n.alloc_gen == m.alloc_gen) || (n.tick
                        == m.tick.wrapping_add(1) && n.alloc_gen == m.alloc_gen.wrapping_add(1))
                    &&& only_evicted(
                        Model { tick: n.tick, alloc_gen: n.alloc_gen, ..m.protecting(prot) },
                        n.protecting(prot),
                    )
                }
                &&& r != 0 ==> exists|i: int|
                #[trigger] newly_reserved(m, n, i, r, asset, index, size, true, prot)
                &&& full(m.protecting(prot)) ==> r == 0 && n.chunks == m.chunks
            },
        }
    }
}

/// Every slot is occupied, and none may be evicted.
pub open spec fn full(m: Model) -> bool {
    forall|i: int|
        0 <= i < m.chunks.len() ==> (#[trigger] m.chunks[i]).backing != 0 && !m.candidate(i)
}

} // verus!
