//! A bounded, block-granular read-through cache over the block store,
//! keyed by embedding id.
//!
//! A miss loads the whole block holding the id and caches every embedding
//! of it that the directory still attributes to that block; when the
//! capacity (measured in embeddings) is exceeded, the block whose
//! most-recently-touched member is oldest is evicted wholesale.
//!
//! The central contract: whatever the cache returns is exactly what the
//! store holds for that id.  The eviction order (least-recently-touched
//! block first, by the stamps in `recency`) is implemented here but kept
//! out of the contracts: no caller's correctness may depend on which
//! block leaves.

use vstd::prelude::*;

use crate::directory::block_of_id;
use crate::embedding::{Embedding, EmbeddingView};
use crate::error::StoreError;
use crate::store::{find_block, find_emb, BlockStore};

verus! {

/// One cached embedding and the block it was loaded from.
#[derive(Debug)]
pub struct CacheEntry {
    pub id: u64,
    pub block: u64,
    pub embedding: Embedding,
}

/// The recency list `rec` has an entry for block `b`.
pub open spec fn old_tracked(rec: Seq<(u64, u64)>, b: u64) -> bool {
    exists|k: int| 0 <= k < rec.len() && (#[trigger] rec[k]).0 == b
}

/// The read-through cache.
#[derive(Debug)]
pub struct EmbeddingCache {
    pub capacity: usize,
    pub entries: Vec<CacheEntry>,
    pub recency: Vec<(u64, u64)>,
    pub clock: u64,
}

impl EmbeddingCache {
    /// Number of embeddings currently held.
    pub open spec fn size(&self) -> int {
        self.entries@.len() as int
    }

    /// The recency list has an entry for block `b`.
    pub open spec fn block_tracked(&self, b: u64) -> bool {
        exists|k: int| 0 <= k < self.recency@.len() && (#[trigger] self.recency@[k]).0 == b
    }

    /// Bookkeeping invariants: cached ids are unique and every cached
    /// entry's block is tracked in the recency list.
    pub open spec fn wf(&self) -> bool {
        &&& forall|i: int, j: int|
            0 <= i < j < self.entries@.len() ==> (#[trigger] self.entries@[i]).id != (
            #[trigger] self.entries@[j]).id
        &&& forall|i: int|
            0 <= i < self.entries@.len() ==> self.block_tracked(
                (#[trigger] self.entries@[i]).block,
            )
    }

    /// Every cached embedding is exactly what the store returns for its
    /// id.
    pub open spec fn coherent(&self, store: &BlockStore) -> bool {
        forall|i: int|
            0 <= i < self.entries@.len() ==> store.lookup((#[trigger] self.entries@[i]).id)
                == Some(self.entries@[i].embedding@)
    }

    /// An empty cache with the given capacity (in embeddings).
    pub fn new(capacity: usize) -> (r: EmbeddingCache)
        ensures
            r.wf(),
            r.size() == 0,
            r.capacity == capacity,
            forall|store: &BlockStore| r.coherent(store),
    {
        EmbeddingCache { capacity, entries: Vec::new(), recency: Vec::new(), clock: 0 }
    }

    /// The next recency stamp (saturating; stamps only order evictions).
    fn tick(&mut self) -> (r: u64)
        ensures
            final(self).entries == old(self).entries,
            final(self).recency == old(self).recency,
            final(self).capacity == old(self).capacity,
    {
        if self.clock < u64::MAX {
            self.clock = self.clock + 1;
        }
        self.clock
    }

    /// Record that `block` was touched now.
    fn touch(&mut self, block: u64)
        ensures
            final(self).entries == old(self).entries,
            final(self).capacity == old(self).capacity,
            final(self).recency@.len() >= old(self).recency@.len(),
            forall|k: int|
                0 <= k < old(self).recency@.len() ==> (#[trigger] final(self).recency@[k]).0
                    == old(self).recency@[k].0,
            final(self).recency@.len() > old(self).recency@.len()
                ==> final(self).recency@.last().0 == block,
            old_tracked(final(self).recency@, block),
    {
        let stamp = self.tick();
        let n = self.recency.len();
        let mut k: usize = 0;
        while k < n
            invariant
                k <= n,
                n == self.recency@.len(),
                self.entries == old(self).entries,
                self.capacity == old(self).capacity,
                forall|q: int|
                    0 <= q < n ==> (#[trigger] self.recency@[q]).0 == old(self).recency@[q].0,
            decreases n - k,
        {
            if self.recency[k].0 == block {
                let ghost r0 = self.recency@;
                self.recency.set(k, (block, stamp));
                proof {
                    assert(forall|q: int|
                        0 <= q < n && q != k ==> (#[trigger] self.recency@[q]) == r0[q]);
                    assert((self.recency@[k as int]).0 == block);
                }
                return ;
            }
            k = k + 1;
        }
        self.recency.push((block, stamp));
        proof {
            assert((self.recency@[self.recency@.len() - 1]).0 == block);
        }
    }

    /// Evict least-recently-touched blocks until at most `room` entries
    /// remain.
    fn evict_to_room(&mut self, store: &BlockStore, room: usize)
        requires
            old(self).wf(),
            old(self).coherent(store),
        ensures
            final(self).wf(),
            final(self).coherent(store),
            final(self).size() <= room,
            final(self).capacity == old(self).capacity,
    {
        while self.entries.len() > room
            invariant
                self.wf(),
                self.coherent(store),
                self.capacity == old(self).capacity,
            decreases self.recency@.len(),
        {
            proof {
                assert(self.entries@.len() > 0);
                assert(self.block_tracked(self.entries@[0].block));
                assert(self.recency@.len() > 0);
            }
            // the block whose last touch is oldest
            let mut victim_idx: usize = 0;
            let mut k: usize = 1;
            while k < self.recency.len()
                invariant
                    victim_idx < self.recency@.len(),
                    k <= self.recency@.len(),
                    self.recency@.len() > 0,
                decreases self.recency@.len() - k,
            {
                if self.recency[k].1 < self.recency[victim_idx].1 {
                    victim_idx = k;
                }
                k = k + 1;
            }
            let victim = self.recency[victim_idx].0;
            let ghost rec0 = self.recency@;
            proof {
                assert forall|i: int| 0 <= i < self.entries@.len() implies old_tracked(
                    rec0,
                    (#[trigger] self.entries@[i]).block,
                ) by {
                    assert(self.block_tracked(self.entries@[i].block));
                }
            }
            self.recency.remove(victim_idx);

            // drop every entry of that block
            let ghost entries0 = self.entries@;
            let mut idx: usize = 0;
            while idx < self.entries.len()
                invariant
                    idx <= self.entries@.len(),
                    forall|a: int, b: int|
                        0 <= a < b < self.entries@.len() ==> (#[trigger] self.entries@[a]).id != (
                        #[trigger] self.entries@[b]).id,
                    forall|a: int|
                        0 <= a < self.entries@.len() ==> store.lookup(
                            (#[trigger] self.entries@[a]).id,
                        ) == Some(self.entries@[a].embedding@),
                    forall|a: int| 0 <= a < idx ==> (#[trigger] self.entries@[a]).block != victim,
                    forall|a: int|
                        0 <= a < self.entries@.len() ==> exists|b: int|
                            0 <= b < entries0.len() && #[trigger] self.entries@[a] == entries0[b],
                    self.capacity == old(self).capacity,
                    self.recency@ == rec0.remove(victim_idx as int),
                decreases self.entries@.len() - idx,
            {
                if self.entries[idx].block == victim {
                    let ghost prev = self.entries@;
                    self.entries.remove(idx);
                    proof {
                        assert(self.entries@ =~= prev.remove(idx as int));
                        assert forall|a: int| 0 <= a < self.entries@.len() implies exists|b: int|
                            0 <= b < entries0.len() && #[trigger] self.entries@[a]
                                == entries0[b] by {
                            if a < idx {
                                assert(self.entries@[a] == prev[a]);
                            } else {
                                assert(self.entries@[a] == prev[a + 1]);
                            }
                        }
                    }
                } else {
                    idx = idx + 1;
                }
            }
            proof {
                assert forall|i: int| 0 <= i < self.entries@.len() implies self.block_tracked(
                    (#[trigger] self.entries@[i]).block,
                ) by {
                    let b0 = choose|b: int|
                        0 <= b < entries0.len() && self.entries@[i] == entries0[b];
                    assert(old_tracked(rec0, entries0[b0].block));
                    let kk = choose|k2: int|
                        0 <= k2 < rec0.len() && (#[trigger] rec0[k2]).0 == entries0[b0].block;
                    assert(self.entries@[i].block != victim);
                    assert(rec0[kk].0 != victim);
                    assert(kk != victim_idx);
                    if kk < victim_idx {
                        assert(self.recency@[kk] == rec0[kk]);
                    } else {
                        assert(self.recency@[kk - 1] == rec0[kk]);
                    }
                }
                assert(self.wf());
                assert(self.coherent(store));
            }
        }
    }
}


/// Where no listed embedding has `id`, `find_emb` returns nothing.
proof fn lemma_find_emb_none(es: Seq<EmbeddingView>, id: u64)
    requires
        forall|p: int| 0 <= p < es.len() ==> (#[trigger] es[p]).id != id,
    ensures
        find_emb(es, id) is None,
    decreases es.len(),
{
    if es.len() > 0 {
        assert(forall|p: int|
            0 <= p < es.drop_first().len() ==> (#[trigger] es.drop_first()[p]).id != id);
        lemma_find_emb_none(es.drop_first(), id);
    }
}

/// The first listed embedding with `id` is what `find_emb` returns.
proof fn lemma_find_emb_first(es: Seq<EmbeddingView>, q: int, id: u64)
    requires
        0 <= q < es.len(),
        es[q].id == id,
        forall|p: int| 0 <= p < q ==> (#[trigger] es[p]).id != id,
    ensures
        find_emb(es, id) == Some(es[q]),
    decreases q,
{
    if q > 0 {
        assert(forall|p: int|
            1 <= p < es.len() ==> es[p] == #[trigger] es.drop_first()[p - 1]);
        lemma_find_emb_first(es.drop_first(), q - 1, id);
    }
}

impl EmbeddingCache {
    /// Which error a miss for `id` raises against this store: `Missing`
    /// when the directory does not list the id, `NotFound` when the block
    /// it names is absent, `Corrupt` when that block does not contain the
    /// id.
    pub open spec fn miss_error(store: &BlockStore, id: u64) -> StoreError {
        match block_of_id(store.v_dir(), id) {
            None => StoreError::Missing,
            Some(n) => match find_block(store.v_blocks(), n) {
                None => StoreError::NotFound,
                Some(es) => StoreError::Corrupt,
            },
        }
    }

    /// Fetch the embedding stored under `id`, through the cache.
    ///
    /// On a miss the whole block holding `id` is loaded and cached, and
    /// least-recently-used blocks are evicted down to the capacity.  The
    /// returned embedding is exactly the one the store holds for `id`;
    /// the call fails precisely when the store has nothing under `id`.
    pub fn get(&mut self, store: &BlockStore, id: u64) -> (r: Result<Embedding, StoreError>)
        requires
            old(self).wf(),
            old(self).coherent(store),
        ensures
            final(self).wf(),
            final(self).coherent(store),
            final(self).capacity == old(self).capacity,
            match r {
                Ok(e) => store.lookup(id) == Some(e@),
                Err(er) => store.lookup(id) is None && er == Self::miss_error(store, id),
            },
    {
        // hit
        let n = self.entries.len();
        let mut a: usize = 0;
        while a < n
            invariant
                a <= n,
                n == self.entries@.len(),
                self == old(self),
                forall|p: int| 0 <= p < a ==> (#[trigger] self.entries@[p]).id != id,
            decreases n - a,
        {
            if self.entries[a].id == id {
                let block = self.entries[a].block;
                let result = self.entries[a].embedding.duplicate();
                self.touch(block);
                proof {
                    assert forall|i: int| 0 <= i < self.entries@.len() implies self.block_tracked(
                        (#[trigger] self.entries@[i]).block,
                    ) by {
                        assert(old(self).block_tracked(self.entries@[i].block));
                        let kk = choose|k: int|
                            0 <= k < old(self).recency@.len() && (#[trigger] old(
                                self,
                            ).recency@[k]).0 == self.entries@[i].block;
                        assert((self.recency@[kk]).0 == self.entries@[i].block);
                    }
                }
                return Ok(result);
            }
            a = a + 1;
        }

        // miss: find the block through the directory
        let bnum = match store.directory.id_map(id) {
            Some(b) => b,
            None => {
                return Err(StoreError::Missing);
            },
        };
        let block = match store.read_block(bnum) {
            Ok(b) => b,
            Err(_) => {
                return Err(StoreError::NotFound);
            },
        };

        // locate the id inside the block
        let m = block.embeddings.len();
        let ghost es = block@.embeddings;
        let mut q: usize = 0;
        let mut found: usize = m;
        while q < m
            invariant
                q <= m,
                m == es.len(),
                es == block@.embeddings,
                found == m,
                forall|p: int| 0 <= p < q ==> (#[trigger] es[p]).id != id,
            decreases m - q,
        {
            if block.embeddings[q].id == id {
                found = q;
                break ;
            }
            q = q + 1;
        }
        if found == m {
            proof {
                lemma_find_emb_none(es, id);
            }
            return Err(StoreError::Corrupt);
        }
        let result = block.embeddings[found].duplicate();
        proof {
            lemma_find_emb_first(es, found as int, id);
            assert(store.lookup(id) == Some(result@));
        }

        // cache the block's current contents
        self.touch(bnum);
        proof {
            assert forall|i: int| 0 <= i < self.entries@.len() implies self.block_tracked(
                (#[trigger] self.entries@[i]).block,
            ) by {
                assert(old(self).block_tracked(self.entries@[i].block));
                let kk = choose|k: int|
                    0 <= k < old(self).recency@.len() && (#[trigger] old(self).recency@[k]).0
                        == self.entries@[i].block;
                assert((self.recency@[kk]).0 == self.entries@[i].block);
            }
        }
        let mut q: usize = 0;
        while q < m
            invariant
                q <= m,
                m == es.len(),
                es == block@.embeddings,
                find_block(store.v_blocks(), bnum) == Some(es),
                self.wf(),
                self.coherent(store),
                self.capacity == old(self).capacity,
                self.block_tracked(bnum),
            decreases m - q,
        {
            let eid = block.embeddings[q].id;
            // cache only the first occurrence, and only if the directory
            // still places this id in this block
            let mut fresh = true;
            let mut p: usize = 0;
            while p < q
                invariant
                    p <= q <= m,
                    m == es.len(),
                    es == block@.embeddings,
                    fresh ==> (forall|t: int| 0 <= t < p ==> (#[trigger] es[t]).id != eid),
                decreases q - p,
            {
                if block.embeddings[p].id == eid {
                    fresh = false;
                }
                p = p + 1;
            }
            let mut cached = false;
            let mut c: usize = 0;
            while c < self.entries.len()
                invariant
                    c <= self.entries@.len(),
                    cached == (exists|t: int|
                        0 <= t < c && (#[trigger] self.entries@[t]).id == eid),
                decreases self.entries@.len() - c,
            {
                if self.entries[c].id == eid {
                    cached = true;
                }
                c = c + 1;
            }
            if fresh && !cached {
                let placed = store.directory.id_map(eid);
                let place_here = match placed {
                    Some(pb) => pb == bnum,
                    None => false,
                };
                if place_here {
                    proof {
                        lemma_find_emb_first(es, q as int, eid);
                        assert(store.lookup(eid) == Some(es[q as int]));
                    }
                    let entry = CacheEntry {
                        id: eid,
                        block: bnum,
                        embedding: block.embeddings[q].duplicate(),
                    };
                    let ghost prev = self.entries@;
                    let ghost rec_now = self.recency@;
                    proof {
                        assert forall|t: int| 0 <= t < prev.len() implies old_tracked(
                            rec_now,
                            (#[trigger] prev[t]).block,
                        ) by {
                            assert(self.block_tracked(prev[t].block));
                        }
                        assert(old_tracked(rec_now, bnum));
                    }
                    self.entries.push(entry);
                    proof {
                        assert(self.recency@ == rec_now);
                        assert(forall|t: int|
                            0 <= t < prev.len() ==> #[trigger] self.entries@[t] == prev[t]);
                        assert(self.entries@.last().id == eid);
                        assert forall|x: int, y: int|
                            0 <= x < y < self.entries@.len() implies (
                            #[trigger] self.entries@[x]).id != (
                            #[trigger] self.entries@[y]).id by {
                            if y == self.entries@.len() - 1 {
                                assert(!(exists|t: int|
                                    0 <= t < prev.len() && (#[trigger] prev[t]).id == eid));
                                assert(prev[x].id != eid);
                            }
                        }
                        assert forall|i: int|
                            0 <= i < self.entries@.len() implies self.block_tracked(
                            (#[trigger] self.entries@[i]).block,
                        ) by {
                            if i < prev.len() {
                                assert(self.entries@[i] == prev[i]);
                                assert(old_tracked(rec_now, prev[i].block));
                                let kk = choose|k: int|
                                    0 <= k < rec_now.len() && (#[trigger] rec_now[k]).0
                                        == prev[i].block;
                                assert((self.recency@[kk]).0 == prev[i].block);
                            } else {
                                assert(self.entries@[i].block == bnum);
                                let kk = choose|k: int|
                                    0 <= k < rec_now.len() && (#[trigger] rec_now[k]).0 == bnum;
                                assert((self.recency@[kk]).0 == bnum);
                            }
                        }
                    }
                }
            }
            q = q + 1;
        }

        let room = self.capacity;
        self.evict_to_room(store, room);
        Ok(result)
    }

    /// Insert one embedding directly, bypassing the disk path; used by
    /// ingestion right after the store was updated, so the value handed in
    /// must be exactly what the store now holds for its id.
    pub fn put(&mut self, store: &BlockStore, embedding: &Embedding)
        requires
            old(self).wf(),
            old(self).coherent(store),
            store.lookup(embedding.id) == Some(embedding@),
        ensures
            final(self).wf(),
            final(self).coherent(store),
            final(self).capacity == old(self).capacity,
            final(self).size() <= old(self).capacity || final(self).size() == 1,
            exists|i: int|
                0 <= i < final(self).entries@.len() && (#[trigger] final(self).entries@[i]).id
                    == embedding.id && final(self).entries@[i].embedding@ == embedding@,
    {
        let bnum = match store.directory.id_map(embedding.id) {
            Some(b) => b,
            None => {
                proof {
                    assert(false);
                }
                0
            },
        };
        // make room first, so the inserted entry survives
        let room = if self.capacity >= 1 {
            self.capacity - 1
        } else {
            0
        };
        self.evict_to_room(store, room);
        // replace a cached copy, or add one
        let n = self.entries.len();
        let mut a: usize = 0;
        let mut at: usize = n;
        while a < n
            invariant
                a <= n,
                at == n,
                n == self.entries@.len(),
                self.wf(),
                self.coherent(store),
                self.capacity == old(self).capacity,
                n <= room,
                forall|p: int| 0 <= p < a ==> (#[trigger] self.entries@[p]).id != embedding.id,
            decreases n - a,
        {
            if self.entries[a].id == embedding.id {
                at = a;
                break ;
            }
            a = a + 1;
        }
        let ghost before_touch = self.recency@;
        let ghost entries_bt = self.entries@;
        proof {
            assert forall|t: int| 0 <= t < entries_bt.len() implies old_tracked(
                before_touch,
                (#[trigger] entries_bt[t]).block,
            ) by {
                assert(self.block_tracked(entries_bt[t].block));
            }
        }
        self.touch(bnum);
        proof {
            assert forall|i: int| 0 <= i < self.entries@.len() implies self.block_tracked(
                (#[trigger] self.entries@[i]).block,
            ) by {
                assert(old_tracked(before_touch, self.entries@[i].block));
                let kk = choose|k: int|
                    0 <= k < before_touch.len() && (#[trigger] before_touch[k]).0
                        == self.entries@[i].block;
                assert((self.recency@[kk]).0 == self.entries@[i].block);
            }
        }
        let ghost prev = self.entries@;
        let ghost rec_now = self.recency@;
        proof {
            assert forall|t: int| 0 <= t < prev.len() implies old_tracked(
                rec_now,
                (#[trigger] prev[t]).block,
            ) by {
                assert(self.block_tracked(prev[t].block));
            }
            assert(old_tracked(rec_now, bnum));
        }
        let entry = CacheEntry { id: embedding.id, block: bnum, embedding: embedding.duplicate() };
        if at < n {
            self.entries.set(at, entry);
            proof {
                assert(self.recency@ == rec_now);
                assert(forall|t: int|
                    0 <= t < prev.len() && t != at ==> #[trigger] self.entries@[t] == prev[t]);
                assert(self.entries@[at as int].id == prev[at as int].id);
                assert forall|i: int| 0 <= i < self.entries@.len() implies self.block_tracked(
                    (#[trigger] self.entries@[i]).block,
                ) by {
                    if i != at {
                        assert(self.entries@[i] == prev[i]);
                        let kk = choose|k: int|
                            0 <= k < rec_now.len() && (#[trigger] rec_now[k]).0 == prev[i].block;
                        assert((self.recency@[kk]).0 == prev[i].block);
                    } else {
                        assert(self.entries@[i].block == bnum);
                        let kk = choose|k: int|
                            0 <= k < rec_now.len() && (#[trigger] rec_now[k]).0 == bnum;
                        assert((self.recency@[kk]).0 == bnum);
                    }
                }
            }
        } else {
            self.entries.push(entry);
            proof {
                assert(self.recency@ == rec_now);
                assert(forall|t: int|
                    0 <= t < prev.len() ==> #[trigger] self.entries@[t] == prev[t]);
                assert forall|x: int, y: int|
                    0 <= x < y < self.entries@.len() implies (#[trigger] self.entries@[x]).id != (
                    #[trigger] self.entries@[y]).id by {
                    if y == self.entries@.len() - 1 {
                        assert(prev[x].id != embedding.id);
                    }
                }
                assert forall|i: int| 0 <= i < self.entries@.len() implies self.block_tracked(
                    (#[trigger] self.entries@[i]).block,
                ) by {
                    if i < prev.len() {
                        assert(self.entries@[i] == prev[i]);
                        let kk = choose|k: int|
                            0 <= k < rec_now.len() && (#[trigger] rec_now[k]).0 == prev[i].block;
                        assert((self.recency@[kk]).0 == prev[i].block);
                    } else {
                        assert(self.entries@[i].block == bnum);
                        let kk = choose|k: int|
                            0 <= k < rec_now.len() && (#[trigger] rec_now[k]).0 == bnum;
                        assert((self.recency@[kk]).0 == bnum);
                    }
                }
            }
        }
        proof {
            if at < n {
                assert(self.entries@[at as int].id == embedding.id);
                assert(self.entries@[at as int].embedding@ == embedding@);
            } else {
                assert(self.entries@[self.entries@.len() - 1].id == embedding.id);
            }
        }
    }

    /// Number of embeddings currently held, for callers sizing the cache.
    pub fn len(&self) -> (r: usize)
        ensures
            r == self.size(),
    {
        self.entries.len()
    }
}

} // verus!

