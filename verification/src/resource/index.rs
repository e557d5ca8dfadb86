//! Hash index from `(asset, index)` keys to chunk slots: a power-of-two table of
//! buckets, each the head of a chain that is linked through one `next` entry per
//! slot.
use vstd::arithmetic::power2::pow2;
use vstd::prelude::*;

verus! {

/// End of a chain, and the "no asset" marker.
pub const NONE: u32 = 0xFFFF_FFFF;

/// Rotates left by fifteen bits.
pub open spec fn rotl15(x: u32) -> u32 {
    (x << 15u32) | (x >> 17u32)
}

/// Hash of a chunk key. Both halves are mixed, since asset ids and chunk indices
/// are both small and dense.
pub open spec fn key_hash(asset: u32, index: u32) -> u32 {
    rotl15(((asset * 0x9E37_79B1) % 0x1_0000_0000) as u32) ^ (((index * 0x85EB_CA6B)
        % 0x1_0000_0000) as u32)
}

/// The bucket of a key in a table of `len` buckets, `len` being a power of two.
pub open spec fn key_bucket(asset: u32, index: u32, len: nat) -> int {
    ((key_hash(asset, index) as usize) & ((len - 1) as usize)) as int
}

/// A bucket is one of the table's.
pub proof fn lemma_key_bucket(asset: u32, index: u32, len: nat)
    requires
        0 < len <= 0x8000_0000,
    ensures
        0 <= key_bucket(asset, index, len) < len,
{
    let h = key_hash(asset, index) as usize;
    let mask = (len - 1) as usize;
    assert(h & mask <= mask) by (bit_vector);
}

/// `c` is linked as a chain from `head` through `next`.
pub open spec fn linked(head: u32, next: Seq<u32>, c: Seq<int>) -> bool {
    &&& head == (if c.len() == 0 { NONE as int } else { c[0] })
    &&& forall|k: int|
        0 <= k < c.len() ==> next[#[trigger] c[k]] == (if k + 1 < c.len() { c[k + 1] } else {
            NONE as int
        })
}

/// `c` without its slot `i`.
pub open spec fn unlinked(c: Seq<int>, i: int) -> Seq<int> {
    c.remove(c.index_of(i))
}

/// `n` is two to some power.
pub open spec fn is_pow2(n: nat) -> bool {
    exists|e: nat| n == #[trigger] pow2(e)
}

/// The smallest power of two that is at least `n`.
pub fn next_power_of_two(n: usize) -> (r: usize)
    requires
        n <= 0x8000_0000,
    ensures
        n <= r <= 0x8000_0000,
        is_pow2(r as nat),
        r == 1 || r < 2 * n,
{
    let mut r: usize = 1;
    let ghost mut e: nat = 0;
    proof {
        vstd::arithmetic::power2::lemma2_to64();
    }
    while r < n
        invariant
            n <= 0x8000_0000,
            1 <= r <= 0x8000_0000,
            r == pow2(e),
            e <= 31,
            r == 1 || r < 2 * n,
        decreases 0x8000_0000 - r,
    {
        proof {
            vstd::arithmetic::power2::lemma2_to64();
            vstd::arithmetic::power2::lemma_pow2_unfold(e + 1);
            if e < 30 {
                vstd::arithmetic::power2::lemma_pow2_strictly_increases(e + 1, 31);
            }
            e = e + 1;
        }
        r = r * 2;
    }
    r
}

/// A slot table's hash chains.
pub struct HashIndex {
    buckets: Vec<u32>,
    next: Vec<u32>,
    chains: Ghost<Seq<Seq<int>>>,
}

impl HashIndex {
    /// The slots of each bucket, in the order in which a lookup visits them.
    pub closed spec fn view(&self) -> Seq<Seq<int>> {
        self.chains@
    }

    /// How many slots can be linked.
    pub closed spec fn slots(&self) -> nat {
        self.next@.len()
    }

    /// The link that follows slot `i`.
    pub closed spec fn link(&self, i: int) -> u32 {
        self.next@[i]
    }

    /// Each chain visits distinct slots, no slot is in two chains, and the links
    /// spell out exactly the chains.
    pub closed spec fn wf(&self) -> bool {
        &&& 0 < self.buckets@.len()
        &&& self.chains@.len() == self.buckets@.len()
        &&& self.next@.len() <= NONE
        &&& forall|b: int|
            0 <= b < self.chains@.len() ==> linked(
                self.buckets@[b],
                self.next@,
                #[trigger] self.chains@[b],
            )
        &&& chains_ok(self.chains@, self.next@.len())
    }

    /// What the links say about chain `b` at its `k`th slot.
    pub proof fn lemma_link(&self, b: int, k: int)
        requires
            self.wf(),
            0 <= b < self@.len(),
            0 <= k < self@[b].len(),
        ensures
            0 <= self@[b][k] < self.slots(),
            self.link(self@[b][k]) == (if k + 1 < self@[b].len() {
                self@[b][k + 1]
            } else {
                NONE as int
            }),
    {
        assert(linked(self.buckets@[b], self.next@, self.chains@[b]));
    }

    /// The shape of the chains, and that a chain is no longer than the table.
    pub proof fn lemma_shape(&self)
        requires
            self.wf(),
        ensures
            chains_ok(self@, self.slots()),
            self@.len() > 0,
            self.slots() <= NONE,
            forall|b: int| 0 <= b < self@.len() ==> (#[trigger] self@[b]).len() <= self.slots(),
    {
        assert forall|b: int| 0 <= b < self@.len() implies (#[trigger] self@[b]).len()
            <= self.slots() by {
            lemma_distinct_len(self@[b], self.slots());
        }
    }

    /// An index with no links over `slots` slots; the bucket count is the smallest
    /// power of two that is no less, so chains stay about one slot long.
    pub fn new(slots: usize) -> (r: Self)
        requires
            slots <= 0x8000_0000,
        ensures
            r.wf(),
            r.slots() == slots,
            r@.len() >= slots,
            is_pow2(r@.len()),
            r@.len() == 1 || r@.len() < 2 * slots,
            r@.len() <= 0x8000_0000,
            forall|b: int| 0 <= b < r@.len() ==> (#[trigger] r@[b]) == Seq::<int>::empty(),
    {
        let cap: usize = next_power_of_two(slots);
        let mut buckets: Vec<u32> = Vec::new();
        let mut i: usize = 0;
        while i < cap
            invariant
                i <= cap,
                buckets@.len() == i,
                forall|b: int| 0 <= b < i ==> buckets@[b] == NONE,
            decreases cap - i,
        {
            buckets.push(NONE);
            i = i + 1;
        }
        let mut next: Vec<u32> = Vec::new();
        let mut j: usize = 0;
        while j < slots
            invariant
                j <= slots,
                next@.len() == j,
            decreases slots - j,
        {
            next.push(NONE);
            j = j + 1;
        }
        let ghost chains = Seq::new(cap as nat, |b: int| Seq::<int>::empty());
        HashIndex { buckets, next, chains: Ghost(chains) }
    }

    /// Links slot `i`, which is in no chain, in front of bucket `b`.
    pub fn insert(&mut self, i: usize, b: usize)
        requires
            old(self).wf(),
            i < old(self).slots(),
            b < old(self)@.len(),
            forall|c: int|
                0 <= c < old(self)@.len() ==> !(#[trigger] old(self)@[c]).contains(i as int),
        ensures
            final(self).wf(),
            final(self).slots() == old(self).slots(),
            final(self)@ == old(self)@.update(b as int, seq![i as int] + old(self)@[b as int]),
    {
        let ghost old_chains = self.chains@;
        let ghost old_next = self.next@;
        let ghost c = self.chains@[b as int];
        let ghost nc = seq![i as int] + c;
        assert(linked(self.buckets@[b as int], self.next@, c));
        self.next.set(i, self.buckets[b]);
        self.buckets.set(b, i as u32);
        self.chains = Ghost(old_chains.update(b as int, nc));
        proof {
            assert(!c.contains(i as int));
            assert forall|k: int| 0 <= k < nc.len() implies self.next@[#[trigger] nc[k]] == (if k + 1
                < nc.len() {
                nc[k + 1]
            } else {
                NONE as int
            }) by {
                if k > 0 {
                    assert(nc[k] == c[k - 1]);
                    assert(c.contains(c[k - 1]));
                }
            }
            assert(linked(self.buckets@[b as int], self.next@, nc));
            assert forall|d: int| 0 <= d < self.chains@.len() implies linked(
                self.buckets@[d],
                self.next@,
                #[trigger] self.chains@[d],
            ) by {
                if d != b {
                    let cd = old_chains[d];
                    assert(linked(self.buckets@[d], old_next, cd));
                    assert forall|k: int| 0 <= k < cd.len() implies self.next@[#[trigger] cd[k]]
                        == old_next[cd[k]] by {
                        assert(cd.contains(cd[k]));
                    }
                }
            }
            assert forall|d: int, x: int|
                0 <= d < self.chains@.len()
                    && #[trigger] self.chains@[d].contains(x) implies old_chains[d].contains(x) || (x
                == i && d == b) by {
                let k = choose|k: int| 0 <= k < self.chains@[d].len() && self.chains@[d][k] == x;
                if d == b && k > 0 {
                    assert(c[k - 1] == x);
                }
            }
        }
    }

    /// Unlinks slot `i` from bucket `b`.
    pub fn remove(&mut self, i: usize, b: usize)
        requires
            old(self).wf(),
            b < old(self)@.len(),
            old(self)@[b as int].contains(i as int),
        ensures
            final(self).wf(),
            final(self).slots() == old(self).slots(),
            final(self)@ == old(self)@.update(b as int, unlinked(old(self)@[b as int], i as int)),
    {
        let ghost old_chains = self.chains@;
        let ghost c = self.chains@[b as int];
        let ghost p = c.index_of(i as int);
        proof {
            assert(linked(self.buckets@[b as int], self.next@, c));
            assert(0 <= p < c.len() && c[p] == i);
        }
        let after: u32 = self.next[i];
        let first: u32 = self.buckets[b];
        if first as usize == i {
            assert(p == 0);
            self.buckets.set(b, after);
        } else {
            let cur: usize = self.predecessor(i, b);
            self.next.set(cur, after);
        }
        self.chains = Ghost(old_chains.update(b as int, c.remove(p)));
        proof {
            lemma_remove_linked(
                old(self).buckets@,
                old(self).next@,
                old_chains,
                self.buckets@,
                self.next@,
                b as int,
                p,
            );
        }
    }

    /// The slot that chain `b` visits just before `i`.
    fn predecessor(&self, i: usize, b: usize) -> (r: usize)
        requires
            self.wf(),
            b < self@.len(),
            self@[b as int].contains(i as int),
            self@[b as int][0] != i,
        ensures
            self@[b as int].index_of(i as int) > 0,
            r == self@[b as int][self@[b as int].index_of(i as int) - 1],
            r < self.slots(),
    {
        let ghost c = self.chains@[b as int];
        let ghost p = c.index_of(i as int);
        assert(linked(self.buckets@[b as int], self.next@, c));
        let mut cur: usize = self.buckets[b] as usize;
        let ghost mut k: int = 0;
        assert(self.link(c[0]) == self.link(cur as int));
        proof {
            self.lemma_link(b as int, 0);
        }
        while self.next[cur] as usize != i
            invariant
                self.wf(),
                b < self@.len(),
                c == self@[b as int],
                0 <= k < p < c.len(),
                c[p] == i,
                c[k] == cur,
                cur < self.slots(),
            decreases p - k,
        {
            proof {
                self.lemma_link(b as int, k);
                self.lemma_link(b as int, k + 1);
                k = k + 1;
            }
            cur = self.next[cur] as usize;
        }
        proof {
            self.lemma_link(b as int, k);
            self.lemma_link(b as int, k + 1);
            assert(c[k + 1] == c[p]);
            assert(c.no_duplicates());
        }
        cur
    }

    /// The bucket of `(asset, index)`.
    pub fn bucket_of(&self, asset: u32, index: u32) -> (b: usize)
        requires
            self.wf(),
        ensures
            b == key_bucket(asset, index, self@.len()),
            0 <= b < self@.len(),
    {
        let m: u32 = asset.wrapping_mul(0x9E37_79B1);
        let h: u32 = ((m << 15u32) | (m >> 17u32)) ^ index.wrapping_mul(0x85EB_CA6B);
        let hu: usize = h as usize;
        let mask: usize = self.buckets.len() - 1;
        assert(hu & mask <= mask) by (bit_vector);
        hu & mask
    }

    /// The first slot of bucket `b`, or `NONE`.
    pub fn head(&self, b: usize) -> (r: u32)
        requires
            self.wf(),
            b < self@.len(),
        ensures
            r == (if self@[b as int].len() == 0 { NONE as int } else { self@[b as int][0] }),
    {
        assert(linked(self.buckets@[b as int], self.next@, self.chains@[b as int]));
        self.buckets[b]
    }

    /// The link that follows slot `i`.
    pub fn next_of(&self, i: usize) -> (r: u32)
        requires
            self.wf(),
            i < self.slots(),
        ensures
            r == self.link(i as int),
    {
        self.next[i]
    }
}

/// Each chain visits distinct slots below `n`, and no slot is in two chains.
pub open spec fn chains_ok(chains: Seq<Seq<int>>, n: nat) -> bool {
    &&& forall|b: int| 0 <= b < chains.len() ==> (#[trigger] chains[b]).no_duplicates()
    &&& forall|b: int, k: int|
        0 <= b < chains.len() && 0 <= k < chains[b].len() ==> 0 <= #[trigger] chains[b][k] < n
    &&& forall|a: int, b: int, i: int|
        0 <= a < chains.len() && 0 <= b < chains.len() && #[trigger] chains[a].contains(i)
            && #[trigger] chains[b].contains(i) ==> a == b
}

/// Taking the slot at position `p` out of chain `b`, and linking around it, leaves
/// chains that the links spell out.
proof fn lemma_remove_linked(
    buckets: Seq<u32>,
    next: Seq<u32>,
    chains: Seq<Seq<int>>,
    new_buckets: Seq<u32>,
    new_next: Seq<u32>,
    b: int,
    p: int,
)
    requires
        buckets.len() == chains.len(),
        next.len() <= NONE,
        chains_ok(chains, next.len()),
        forall|d: int|
            0 <= d < chains.len() ==> linked(buckets[d], next, #[trigger] chains[d]),
        0 <= b < chains.len(),
        0 <= p < chains[b].len(),
        p == 0 ==> new_buckets == buckets.update(b, next[chains[b][0]]) && new_next == next,
        p > 0 ==> new_buckets == buckets && new_next == next.update(
            chains[b][p - 1],
            next[chains[b][p]],
        ),
    ensures
        chains_ok(chains.update(b, chains[b].remove(p)), next.len()),
        forall|d: int|
            0 <= d < chains.len() ==> linked(
                new_buckets[d],
                new_next,
                #[trigger] chains.update(b, chains[b].remove(p))[d],
            ),
{
    let c = chains[b];
    let nc = c.remove(p);
    let nchains = chains.update(b, nc);
    assert(linked(buckets[b], next, c));
    lemma_remove_one(buckets[b], next, c, new_buckets[b], new_next, p);
    assert forall|d: int| 0 <= d < chains.len() implies linked(
        new_buckets[d],
        new_next,
        #[trigger] nchains[d],
    ) by {
        if d != b {
            let cd = chains[d];
            assert(linked(buckets[d], next, cd));
            assert forall|k: int| 0 <= k < cd.len() implies new_next[#[trigger] cd[k]] == next[cd[k]] by {
                assert(cd.contains(cd[k]));
                if p > 0 {
                    assert(c.contains(c[p - 1]));
                }
            }
        }
    }
    lemma_remove_chains_ok(chains, next.len(), b, p);
}

/// Linking around the slot at position `p` spells out the chain without it.
proof fn lemma_remove_one(
    head: u32,
    next: Seq<u32>,
    c: Seq<int>,
    new_head: u32,
    new_next: Seq<u32>,
    p: int,
)
    requires
        next.len() <= NONE,
        c.no_duplicates(),
        forall|k: int| 0 <= k < c.len() ==> 0 <= #[trigger] c[k] < next.len(),
        linked(head, next, c),
        0 <= p < c.len(),
        p == 0 ==> new_head == next[c[0]] && new_next == next,
        p > 0 ==> new_head == head && new_next == next.update(c[p - 1], next[c[p]]),
    ensures
        linked(new_head, new_next, c.remove(p)),
{
    let nc = c.remove(p);
    assert forall|k: int| 0 <= k < nc.len() implies new_next[#[trigger] nc[k]] == (if k + 1
        < nc.len() {
        nc[k + 1]
    } else {
        NONE as int
    }) by {
        let o = if k < p { k } else { k + 1 };
        assert(nc[k] == c[o]);
        assert(next[c[o]] == (if o + 1 < c.len() { c[o + 1] } else { NONE as int }));
        assert(next[c[p]] == (if p + 1 < c.len() { c[p + 1] } else { NONE as int }));
        if k + 1 < nc.len() {
            assert(nc[k + 1] == if k + 1 < p { c[k + 1] } else { c[k + 2] });
        }
    }
    assert(next[c[p]] == (if p + 1 < c.len() { c[p + 1] } else { NONE as int }));
}

/// Taking a slot out of a chain keeps the chains' shape.
proof fn lemma_remove_chains_ok(chains: Seq<Seq<int>>, n: nat, b: int, p: int)
    requires
        chains_ok(chains, n),
        0 <= b < chains.len(),
        0 <= p < chains[b].len(),
    ensures
        chains_ok(chains.update(b, chains[b].remove(p)), n),
{
    let c = chains[b];
    let nc = c.remove(p);
    let nchains = chains.update(b, nc);
    assert forall|d: int, x: int|
        0 <= d < chains.len() && #[trigger] nchains[d].contains(x) implies chains[d].contains(x) by {
        if d == b {
            let k = choose|k: int| 0 <= k < nc.len() && nc[k] == x;
            assert(c.contains(if k < p { c[k] } else { c[k + 1] }));
        }
    }
    assert forall|d: int| 0 <= d < chains.len() implies (#[trigger] nchains[d]).no_duplicates() by {
        assert(chains[d].no_duplicates());
    }
    assert forall|d: int, k: int|
        0 <= d < nchains.len() && 0 <= k < nchains[d].len() implies 0 <= #[trigger] nchains[d][k]
        < n by {
        assert(nchains[d].contains(nchains[d][k]));
        let m = choose|m: int| 0 <= m < chains[d].len() && chains[d][m] == nchains[d][k];
        assert(0 <= chains[d][m] < n);
    }
}

/// Distinct numbers below `n` are at most `n` many.
proof fn lemma_distinct_len(c: Seq<int>, n: nat)
    requires
        c.no_duplicates(),
        forall|k: int| 0 <= k < c.len() ==> 0 <= #[trigger] c[k] < n,
    ensures
        c.len() <= n,
{
    let all = vstd::set_lib::set_int_range(0, n as int);
    vstd::set_lib::lemma_int_range(0, n as int);
    c.unique_seq_to_set();
    assert(c.to_set().subset_of(all));
    vstd::set_lib::lemma_len_subset(c.to_set(), all);
}

} // verus!
