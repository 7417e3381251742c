//! The block store: append-only paged storage of embeddings in fixed-count
//! blocks, the directory census, and the id counter.
//!
//! The store is held as a value: each block's decoded contents, the
//! directory entries and the counter.  Persistence is a thin shell around
//! it — block files and the index file go through the codec, the directory
//! and the counter through their text forms — and every operation on the
//! value is verified here.

use vstd::prelude::*;

use crate::directory::{block_of_id, DirectoryEntry, DirEntryV, Directory};
use crate::embedding::{
    is_normalization_of, normalize, unit_bounded, Embedding, EmbeddingView,
};
use crate::error::StoreError;
use crate::text::{all_digits, dec_value, render_u64_string};
use crate::{BLOCK_SIZE, MAX_DIM};

verus! {

/// One block file, decoded: its number and its embeddings, in order.
#[derive(Debug)]
pub struct EmbeddingBlock {
    pub block: u64,
    pub embeddings: Vec<Embedding>,
}

/// Mathematical image of a block.
#[verifier::ext_equal]
pub ghost struct BlockV {
    pub block: u64,
    pub embeddings: Seq<EmbeddingView>,
}

/// The images of a list of embeddings.
pub open spec fn embs_view(es: Seq<Embedding>) -> Seq<EmbeddingView> {
    Seq::new(es.len(), |i: int| es[i]@)
}

impl View for EmbeddingBlock {
    type V = BlockV;

    open spec fn view(&self) -> BlockV {
        BlockV { block: self.block, embeddings: embs_view(self.embeddings@) }
    }
}

/// The images of a list of blocks.
pub open spec fn blocks_view(bs: Seq<EmbeddingBlock>) -> Seq<BlockV> {
    Seq::new(bs.len(), |i: int| bs[i]@)
}

/// A list of embeddings the index can work on: bounded dimension,
/// normalized components.
pub open spec fn embs_wf(es: Seq<EmbeddingView>) -> bool {
    forall|i: int|
        0 <= i < es.len() ==> (#[trigger] es[i]).data.len() <= MAX_DIM && unit_bounded(es[i].data)
}

/// The contents of the first block numbered `n`.
pub open spec fn find_block(bs: Seq<BlockV>, n: u64) -> Option<Seq<EmbeddingView>>
    decreases bs.len(),
{
    if bs.len() == 0 {
        None
    } else if bs[0].block == n {
        Some(bs[0].embeddings)
    } else {
        find_block(bs.drop_first(), n)
    }
}

/// The first embedding with the given id.
pub open spec fn find_emb(es: Seq<EmbeddingView>, id: u64) -> Option<EmbeddingView>
    decreases es.len(),
{
    if es.len() == 0 {
        None
    } else if es[0].id == id {
        Some(es[0])
    } else {
        find_emb(es.drop_first(), id)
    }
}

/// The largest block number in use.
pub open spec fn max_block(bs: Seq<BlockV>) -> int
    decreases bs.len(),
{
    if bs.len() == 0 {
        0
    } else {
        let rest = max_block(bs.drop_first());
        if bs[0].block >= rest {
            bs[0].block as int
        } else {
            rest
        }
    }
}

/// An owned copy of a list of embeddings, with the same images.
pub fn copy_embeddings(v: &Vec<Embedding>) -> (r: Vec<Embedding>)
    ensures
        embs_view(r@) == embs_view(v@),
        r@.len() == v@.len(),
{
    let mut out: Vec<Embedding> = Vec::new();
    let mut i: usize = 0;
    while i < v.len()
        invariant
            i <= v@.len(),
            out@.len() == i,
            forall|j: int| 0 <= j < i ==> #[trigger] out@[j]@ == v@[j]@,
        decreases v@.len() - i,
    {
        out.push(v[i].duplicate());
        i = i + 1;
    }
    proof {
        assert(embs_view(out@) =~= embs_view(v@));
    }
    out
}

impl EmbeddingBlock {
    /// An owned copy with the same image.
    pub fn duplicate(&self) -> (r: EmbeddingBlock)
        ensures
            r@ == self@,
    {
        EmbeddingBlock { block: self.block, embeddings: copy_embeddings(&self.embeddings) }
    }
}

/// The embedding store: decoded block files, the directory and the
/// persisted id counter, as one value.
#[derive(Debug)]
pub struct BlockStore {
    pub blocks: Vec<EmbeddingBlock>,
    pub directory: Directory,
    pub id_counter: u64,
}

impl BlockStore {
    /// The images of this store's blocks.
    pub open spec fn v_blocks(&self) -> Seq<BlockV> {
        blocks_view(self.blocks@)
    }

    /// The images of this store's directory entries.
    pub open spec fn v_dir(&self) -> Seq<DirEntryV> {
        self.directory@
    }

    /// The embedding stored under `id`, reached through the directory.
    pub open spec fn lookup(&self, id: u64) -> Option<EmbeddingView> {
        match block_of_id(self.v_dir(), id) {
            None => None,
            Some(n) => match find_block(self.v_blocks(), n) {
                None => None,
                Some(es) => find_emb(es, id),
            },
        }
    }

    /// Well-formedness: block numbers are unique, no block exceeds
    /// `BLOCK_SIZE`, and every stored vector is normalized and of bounded
    /// dimension.
    pub open spec fn wf(&self) -> bool {
        &&& forall|i: int, j: int|
            0 <= i < j < self.v_blocks().len() ==> (#[trigger] self.v_blocks()[i]).block != (
            #[trigger] self.v_blocks()[j]).block
        &&& forall|i: int|
            0 <= i < self.v_blocks().len() ==> (#[trigger] self.v_blocks()[i]).embeddings.len()
                <= BLOCK_SIZE
        &&& forall|i: int|
            0 <= i < self.v_blocks().len() ==> embs_wf((#[trigger] self.v_blocks()[i]).embeddings)
    }

    /// An empty store with the given counter value.
    pub fn empty(id_counter: u64) -> (r: BlockStore)
        ensures
            r.v_blocks().len() == 0,
            r.v_dir().len() == 0,
            r.id_counter == id_counter,
            r.wf(),
    {
        BlockStore { blocks: Vec::new(), directory: Directory::empty(), id_counter }
    }

    /// Read one block; fails with `NotFound` if no block file carries that
    /// number.
    pub fn read_block(&self, n: u64) -> (r: Result<EmbeddingBlock, StoreError>)
        ensures
            match r {
                Ok(b) => find_block(self.v_blocks(), n) == Some(b@.embeddings) && b@.block == n,
                Err(e) => e == StoreError::NotFound && find_block(self.v_blocks(), n) is None,
            },
    {
        let m = self.blocks.len();
        let mut i: usize = 0;
        proof {
            assert(self.v_blocks().skip(0) =~= self.v_blocks());
        }
        while i < m
            invariant
                i <= m,
                m == self.v_blocks().len(),
                find_block(self.v_blocks(), n) == find_block(self.v_blocks().skip(i as int), n),
            decreases m - i,
        {
            proof {
                assert(self.v_blocks().skip(i as int)[0] == self.v_blocks()[i as int]);
                assert(self.v_blocks().skip(i as int).drop_first() =~= self.v_blocks().skip(
                    i as int + 1,
                ));
            }
            if self.blocks[i].block == n {
                let b = self.blocks[i].duplicate();
                return Ok(b);
            }
            i = i + 1;
        }
        proof {
            assert(self.v_blocks().skip(m as int) =~= Seq::<BlockV>::empty());
        }
        Err(StoreError::NotFound)
    }

    /// Replace the block carrying `block.block`, or add it if absent.
    pub fn write_block(&mut self, block: EmbeddingBlock)
        requires
            old(self).wf(),
            block@.embeddings.len() <= BLOCK_SIZE,
            embs_wf(block@.embeddings),
        ensures
            final(self).wf(),
            find_block(final(self).v_blocks(), block@.block) == Some(block@.embeddings),
            forall|m: u64|
                m != block@.block ==> #[trigger] find_block(final(self).v_blocks(), m)
                    == find_block(old(self).v_blocks(), m),
            final(self).v_dir() == old(self).v_dir(),
            final(self).id_counter == old(self).id_counter,
            final(self).v_blocks().len() <= old(self).v_blocks().len() + 1,
    {
        let m = self.blocks.len();
        let mut i: usize = 0;
        while i < m
            invariant
                i <= m,
                self == old(self),
                m == self.v_blocks().len(),
                forall|j: int| 0 <= j < i ==> (#[trigger] self.v_blocks()[j]).block != block@.block,
            decreases m - i,
        {
            if self.blocks[i].block == block.block {
                let ghost old_blocks = self.v_blocks();
                let ghost bv = block@;
                self.blocks.set(i, block);
                proof {
                    let new_blocks = self.v_blocks();
                    assert(new_blocks =~= old_blocks.update(i as int, bv));
                    lemma_find_block_update(old_blocks, i as int, bv);
                    assert(forall|x: int|
                        0 <= x < new_blocks.len() && x != i ==> new_blocks[x] == old_blocks[x]);
                    assert(new_blocks[i as int] == bv);
                    assert(new_blocks[i as int].block == old_blocks[i as int].block);
                    assert forall|p: int, q: int| 0 <= p < q < new_blocks.len() implies (
                        #[trigger] new_blocks[p]).block != (#[trigger] new_blocks[q]).block by {
                        assert(old_blocks[p].block != old_blocks[q].block);
                    }
                    assert(self.wf());
                }
                return ;
            }
            i = i + 1;
        }
        let ghost old_blocks = self.v_blocks();
        let ghost bv = block@;
        self.blocks.push(block);
        proof {
            let new_blocks = self.v_blocks();
            assert(new_blocks =~= old_blocks.push(bv));
            lemma_find_block_push(old_blocks, bv);
            assert(forall|x: int| 0 <= x < old_blocks.len() ==> new_blocks[x] == old_blocks[x]);
            assert(new_blocks[old_blocks.len() as int] == bv);
            assert(old_blocks == old(self).v_blocks());
            assert(old(self).wf());
            assert forall|p: int, q: int| 0 <= p < q < new_blocks.len() implies (
                #[trigger] new_blocks[p]).block != (#[trigger] new_blocks[q]).block by {
                if q < old_blocks.len() {
                    assert((old(self).v_blocks()[p]).block != (old(self).v_blocks()[q]).block);
                    assert(old_blocks[p].block != old_blocks[q].block);
                } else {
                    assert(q == old_blocks.len());
                    assert(old_blocks[p].block != bv.block);
                }
            }
            assert(self.wf());
        }
    }

    /// Allocate a fresh id: the successor of the persisted counter, which
    /// is advanced to it.
    pub fn next_id(&mut self) -> (r: u64)
        requires
            old(self).id_counter < u64::MAX,
        ensures
            r == old(self).id_counter + 1,
            final(self).id_counter == r,
            final(self).v_blocks() == old(self).v_blocks(),
            final(self).v_dir() == old(self).v_dir(),
    {
        self.id_counter = self.id_counter + 1;
        self.id_counter
    }

    /// The directory, as an owned copy.
    pub fn get_directory(&self) -> (r: Directory)
        ensures
            r@ == self.v_dir(),
    {
        let mut entries: Vec<DirectoryEntry> = Vec::new();
        let n = self.directory.entries.len();
        let mut i: usize = 0;
        while i < n
            invariant
                i <= n,
                n == self.directory.entries@.len(),
                entries@.len() == i,
                forall|j: int| 0 <= j < i ==> #[trigger] entries@[j]@ == self.directory.entries@[j]@,
            decreases n - i,
        {
            let e = &self.directory.entries[i];
            entries.push(
                DirectoryEntry { id: e.id, filepath: e.filepath.clone(), block: e.block },
            );
            i = i + 1;
        }
        proof {
            assert(crate::directory::entries_view(entries@) =~= self.v_dir());
        }
        Directory { entries }
    }

    /// Replace the directory wholesale.
    pub fn write_directory(&mut self, entries: Vec<DirectoryEntry>)
        ensures
            final(self).v_dir() == crate::directory::entries_view(entries@),
            final(self).v_blocks() == old(self).v_blocks(),
            final(self).id_counter == old(self).id_counter,
            old(self).wf() ==> final(self).wf(),
    {
        self.directory = Directory { entries };
    }
}

/// The id allocated by the `i`-th successive `next_id` call on a store
/// whose counter starts at `c0`.
pub open spec fn allocated_id(c0: u64, i: int) -> int {
    c0 + i + 1
}

/// Id monotonicity: over any sequence of `next_id` calls the returned
/// values are strictly increasing, each the successor of the one before.
///
/// `next_id` returns `counter + 1` and advances the counter to it, so the
/// `i`-th call returns `allocated_id(c0, i)`; this law states the order of
/// those values.
pub proof fn lemma_next_id_monotonic(c0: u64, k: int)
    requires
        c0 + k <= u64::MAX,
    ensures
        forall|i: int, j: int|
            0 <= i < j < k ==> allocated_id(c0, i) < allocated_id(c0, j),
        forall|i: int|
            0 <= i < k - 1 ==> #[trigger] allocated_id(c0, i + 1) == allocated_id(c0, i) + 1,
{
}

/// Where no block carries `n`, `find_block` returns nothing.
proof fn lemma_find_block_none(bs: Seq<BlockV>, n: u64)
    requires
        forall|j: int| 0 <= j < bs.len() ==> (#[trigger] bs[j]).block != n,
    ensures
        find_block(bs, n) is None,
    decreases bs.len(),
{
    if bs.len() > 0 {
        assert(bs.drop_first() =~= bs.skip(1));
        assert(forall|j: int|
            0 <= j < bs.drop_first().len() ==> (#[trigger] bs.drop_first()[j]).block != n);
        lemma_find_block_none(bs.drop_first(), n);
    }
}

/// Every block number is bounded by the maximum, which is itself a block
/// number when any block exists.
proof fn lemma_max_block_props(bs: Seq<BlockV>)
    ensures
        0 <= max_block(bs),
        forall|j: int| 0 <= j < bs.len() ==> (#[trigger] bs[j]).block <= max_block(bs),
        bs.len() > 0 ==> exists|j: int|
            0 <= j < bs.len() && (#[trigger] bs[j]).block == max_block(bs),
    decreases bs.len(),
{
    if bs.len() > 0 {
        lemma_max_block_props(bs.drop_first());
        assert(forall|j: int|
            1 <= j < bs.len() ==> bs[j] == #[trigger] bs.drop_first()[j - 1]);
        assert forall|j: int| 0 <= j < bs.len() implies (#[trigger] bs[j]).block <= max_block(
            bs,
        ) by {
            if j >= 1 {
                assert(bs.drop_first()[j - 1].block <= max_block(bs.drop_first()));
            }
        }
        if bs[0].block as int >= max_block(bs.drop_first()) {
            assert(bs[0].block == max_block(bs));
        } else {
            let j0 = choose|j: int|
                0 <= j < bs.drop_first().len() && (#[trigger] bs.drop_first()[j]).block
                    == max_block(bs.drop_first());
            assert(bs[j0 + 1].block == max_block(bs));
        }
    }
}

/// What `find_block` returns in a well-formed store is itself well formed.
pub proof fn lemma_find_block_wf(bs: Seq<BlockV>, n: u64)
    requires
        forall|i: int| 0 <= i < bs.len() ==> embs_wf((#[trigger] bs[i]).embeddings),
        forall|i: int| 0 <= i < bs.len() ==> (#[trigger] bs[i]).embeddings.len() <= BLOCK_SIZE,
    ensures
        match find_block(bs, n) {
            Some(es) => embs_wf(es) && es.len() <= BLOCK_SIZE,
            None => true,
        },
    decreases bs.len(),
{
    if bs.len() > 0 {
        assert(forall|j: int|
            1 <= j < bs.len() ==> bs[j] == #[trigger] bs.drop_first()[j - 1]);
        lemma_find_block_wf(bs.drop_first(), n);
    }
}

/// The maximum block number is listed whenever any block exists.
proof fn lemma_max_block_found(bs: Seq<BlockV>)
    requires
        bs.len() > 0,
        max_block(bs) <= u64::MAX,
    ensures
        find_block(bs, max_block(bs) as u64) is Some,
    decreases bs.len(),
{
    lemma_max_block_props(bs);
    if bs[0].block == max_block(bs) as u64 {
    } else {
        assert(max_block(bs) == max_block(bs.drop_first()));
        lemma_max_block_found(bs.drop_first());
    }
}

/// The block a newly ingested embedding goes to: the highest-numbered
/// block, or the next number up when that block is full, or block zero in
/// an empty store.
pub open spec fn ingest_target(bs: Seq<BlockV>) -> int {
    if bs.len() == 0 {
        0
    } else {
        match find_block(bs, max_block(bs) as u64) {
            Some(es) => if es.len() >= BLOCK_SIZE {
                max_block(bs) + 1
            } else {
                max_block(bs)
            },
            None => max_block(bs),
        }
    }
}

impl BlockStore {
    /// Ingest one embedding: assign it the next id, append it to the
    /// highest-numbered block (starting a fresh block when that one is
    /// full, or block zero in an empty store), and append the matching
    /// directory line.
    ///
    /// The vector must already be normalized (`normalize` is the public
    /// path for that); the index is not touched.
    pub fn add_new_embedding(&mut self, embedding: &mut Embedding) -> (r: u64)
        requires
            old(self).wf(),
            old(self).id_counter < u64::MAX,
            max_block(old(self).v_blocks()) < u64::MAX,
            old(embedding).wf(),
        ensures
            final(self).wf(),
            r == old(self).id_counter + 1,
            final(self).id_counter == r,
            final(embedding)@ == (EmbeddingView { id: r, ..old(embedding)@ }),
            final(self).v_dir() == old(self).v_dir().push(
                DirEntryV {
                    id: r,
                    filepath: old(embedding)@.source_file.filepath,
                    block: ingest_target(old(self).v_blocks()) as u64,
                },
            ),
            ({
                let t = ingest_target(old(self).v_blocks()) as u64;
                let prior = match find_block(old(self).v_blocks(), t) {
                    Some(es) => es,
                    None => Seq::empty(),
                };
                &&& find_block(final(self).v_blocks(), t) == Some(
                    prior.push(final(embedding)@),
                )
                &&& forall|m: u64|
                    m != t ==> #[trigger] find_block(final(self).v_blocks(), m) == find_block(
                        old(self).v_blocks(),
                        m,
                    )
            }),
    {
        proof {
            lemma_max_block_props(self.v_blocks());
        }
        // highest block number in use
        let nblocks = self.blocks.len();
        let mut last: u64 = 0;
        let mut i: usize = 0;
        proof {
            assert(self.v_blocks().skip(0) =~= self.v_blocks());
        }
        while i < nblocks
            invariant
                i <= nblocks,
                self == old(self),
                nblocks == self.v_blocks().len(),
                max_block(self.v_blocks()) == (if last as int >= max_block(
                    self.v_blocks().skip(i as int),
                ) {
                    last as int
                } else {
                    max_block(self.v_blocks().skip(i as int))
                }),
            decreases nblocks - i,
        {
            proof {
                assert(self.v_blocks().skip(i as int)[0] == self.v_blocks()[i as int]);
                assert(self.v_blocks().skip(i as int).drop_first() =~= self.v_blocks().skip(
                    i as int + 1,
                ));
                lemma_max_block_props(self.v_blocks().skip(i as int + 1));
            }
            if self.blocks[i].block > last {
                last = self.blocks[i].block;
            }
            i = i + 1;
        }
        proof {
            assert(self.v_blocks().skip(nblocks as int) =~= Seq::<BlockV>::empty());
            if nblocks > 0 {
                assert(last as int == max_block(self.v_blocks()));
            }
        }

        // target block: the last one, a fresh one after it, or block zero
        let mut block: EmbeddingBlock = if nblocks == 0 {
            EmbeddingBlock { block: 0, embeddings: Vec::new() }
        } else {
            proof {
                lemma_max_block_found(self.v_blocks());
            }
            match self.read_block(last) {
                Ok(b) => {
                    if b.embeddings.len() >= BLOCK_SIZE {
                        EmbeddingBlock { block: last + 1, embeddings: Vec::new() }
                    } else {
                        b
                    }
                },
                Err(_) => {
                    proof {
                        assert(false);
                    }
                    EmbeddingBlock { block: 0, embeddings: Vec::new() }
                },
            }
        };
        let ghost t = ingest_target(old(self).v_blocks()) as u64;
        proof {
            assert(block@.block == t);
            if nblocks == 0 {
                lemma_find_block_none(self.v_blocks(), t);
            } else if ingest_target(self.v_blocks()) == max_block(self.v_blocks()) + 1 {
                assert forall|j: int| 0 <= j < self.v_blocks().len() implies (
                    #[trigger] self.v_blocks()[j]).block != t by {
                    assert(self.v_blocks()[j].block <= max_block(self.v_blocks()));
                }
                lemma_find_block_none(self.v_blocks(), t);
            }
        }
        let ghost prior = match find_block(old(self).v_blocks(), t) {
            Some(es) => es,
            None => Seq::<EmbeddingView>::empty(),
        };
        proof {
            assert(block@.embeddings == prior);
            lemma_find_block_wf(self.v_blocks(), t);
            assert(embs_wf(prior));
        }

        let target_num: u64 = block.block;
        let id = self.next_id();
        embedding.id = id;
        block.embeddings.push(embedding.duplicate());
        proof {
            assert(block@.embeddings =~= prior.push(embedding@));
            assert(embs_wf(block@.embeddings));
        }
        self.write_block(block);
        let entry = DirectoryEntry {
            id,
            filepath: embedding.source_file.filepath.clone(),
            block: target_num,
        };
        let ghost dir0 = self.v_dir();
        self.directory.entries.push(entry);
        proof {
            assert(self.v_dir() =~= dir0.push(entry@));
            assert(entry@.block == t);
        }
        id
    }
}

/// The embeddings as they are stored by a full sync: the `j`-th one gets
/// the `j`-th freshly allocated id.
pub open spec fn stamped(es: Seq<EmbeddingView>, c0: u64) -> Seq<EmbeddingView> {
    Seq::new(es.len(), |j: int| EmbeddingView { id: (c0 + j + 1) as u64, ..es[j] })
}

/// Number of blocks a sequence of embeddings fills.
pub open spec fn chunk_count(n: int) -> int {
    if n == 0 {
        0
    } else {
        (n - 1) / (BLOCK_SIZE as int) + 1
    }
}

/// The embeddings split into consecutive blocks of `BLOCK_SIZE`, numbered
/// from zero.
pub open spec fn chunked(es: Seq<EmbeddingView>) -> Seq<BlockV> {
    Seq::new(
        chunk_count(es.len() as int) as nat,
        |i: int|
            BlockV {
                block: i as u64,
                embeddings: es.subrange(
                    i * (BLOCK_SIZE as int),
                    if (i + 1) * (BLOCK_SIZE as int) <= es.len() {
                        (i + 1) * (BLOCK_SIZE as int)
                    } else {
                        es.len() as int
                    },
                ),
            },
    )
}

/// The directory matching a chunked layout: one entry per embedding, in
/// order, pointing at the block its position falls in.
pub open spec fn chunk_dir(es: Seq<EmbeddingView>) -> Seq<DirEntryV> {
    Seq::new(
        es.len(),
        |j: int|
            DirEntryV {
                id: es[j].id,
                filepath: es[j].source_file.filepath,
                block: (j / (BLOCK_SIZE as int)) as u64,
            },
    )
}

impl BlockStore {
    /// Rebuild the store from a fresh batch of embeddings: every existing
    /// block is discarded, each embedding gets the next id in order, the
    /// batch is chunked into blocks of `BLOCK_SIZE` numbered from zero, and
    /// the directory is rewritten to match.
    ///
    /// Embeddings are handed in already normalized; ids they carry are
    /// ignored and reassigned.
    pub fn sync_index(&mut self, embeddings: &Vec<Embedding>)
        requires
            old(self).wf(),
            embs_wf(embs_view(embeddings@)),
            old(self).id_counter + embeddings@.len() <= u64::MAX,
        ensures
            final(self).wf(),
            final(self).id_counter == old(self).id_counter + embeddings@.len(),
            final(self).v_blocks() == chunked(
                stamped(embs_view(embeddings@), old(self).id_counter),
            ),
            final(self).v_dir() == chunk_dir(stamped(embs_view(embeddings@), old(self).id_counter)),
    {
        let ghost c0 = self.id_counter;
        let ghost st = stamped(embs_view(embeddings@), c0);
        let n = embeddings.len();
        let mut new_blocks: Vec<EmbeddingBlock> = Vec::new();
        let mut new_dir: Vec<DirectoryEntry> = Vec::new();
        let mut current: Vec<Embedding> = Vec::new();
        let mut j: usize = 0;
        proof {
            assert(blocks_view(new_blocks@) =~= chunked(st).take(0));
            assert(embs_view(current@) =~= st.subrange(0, 0));
            assert(crate::directory::entries_view(new_dir@) =~= chunk_dir(st).take(0));
        }
        while j < n
            invariant
                j <= n,
                n == embeddings@.len(),
                self.id_counter == c0 + j,
                st == stamped(embs_view(embeddings@), c0),
                c0 + n <= u64::MAX,
                embs_wf(embs_view(embeddings@)),
                current@.len() == j % BLOCK_SIZE,
                embs_view(current@) == st.subrange(j as int - (j % BLOCK_SIZE) as int, j as int),
                new_blocks@.len() == j / BLOCK_SIZE,
                blocks_view(new_blocks@) == chunked(st).take((j / BLOCK_SIZE) as int),
                new_dir@.len() == j,
                crate::directory::entries_view(new_dir@) == chunk_dir(st).take(j as int),
            decreases n - j,
        {
            let mut e = embeddings[j].duplicate();
            let id = self.id_counter + 1;
            self.id_counter = id;
            e.id = id;
            proof {
                assert(e@ == st[j as int]);
            }
            new_dir.push(
                DirectoryEntry {
                    id,
                    filepath: e.source_file.filepath.clone(),
                    block: ((j / BLOCK_SIZE) as u64),
                },
            );
            proof {
                assert(chunk_dir(st).take(j as int + 1).drop_last() =~= chunk_dir(st).take(j as int));
                assert(crate::directory::entries_view(new_dir@) =~= chunk_dir(st).take(j as int + 1));
            }
            let ghost cur0 = embs_view(current@);
            current.push(e);
            proof {
                assert(embs_view(current@) =~= st.subrange(
                    j as int - (j % BLOCK_SIZE) as int,
                    j as int + 1,
                ));
            }
            if current.len() == BLOCK_SIZE {
                let ghost i = (j / BLOCK_SIZE) as int;
                let ghost bv = chunked(st)[i];
                proof {
                    assert(j as int - (j % BLOCK_SIZE) as int == i * (BLOCK_SIZE as int));
                    assert(j as int + 1 == (i + 1) * (BLOCK_SIZE as int));
                    assert((i + 1) * (BLOCK_SIZE as int) <= st.len());
                    assert(i < chunk_count(st.len() as int));
                    assert(embs_view(current@) == bv.embeddings);
                }
                let bnum = new_blocks.len() as u64;
                let filled = current;
                current = Vec::new();
                new_blocks.push(EmbeddingBlock { block: bnum, embeddings: filled });
                proof {
                    assert((j as int + 1) % (BLOCK_SIZE as int) == 0);
                    assert((j as int + 1) / (BLOCK_SIZE as int) == i + 1);
                    assert(chunked(st).take(i + 1).drop_last() =~= chunked(st).take(i));
                    assert(new_blocks@.last()@ =~= bv);
                    assert(blocks_view(new_blocks@) =~= chunked(st).take(i + 1));
                    assert(embs_view(current@) =~= st.subrange(j as int + 1, j as int + 1));
                }
            } else {
                proof {
                    assert((j as int + 1) % (BLOCK_SIZE as int) == (j % BLOCK_SIZE) as int + 1);
                    assert((j as int + 1) / (BLOCK_SIZE as int) == (j / BLOCK_SIZE) as int);
                }
            }
            j = j + 1;
        }
        if current.len() > 0 {
            let ghost ccount = chunk_count(st.len() as int);
            let ghost i = (n / BLOCK_SIZE) as int;
            proof {
                assert(n % BLOCK_SIZE != 0);
                assert(ccount == i + 1);
                assert(n as int - (n % BLOCK_SIZE) as int == i * (BLOCK_SIZE as int));
                assert((i + 1) * (BLOCK_SIZE as int) > st.len());
                assert(embs_view(current@) == chunked(st)[i].embeddings);
            }
            let bnum = new_blocks.len() as u64;
            let ghost prev = blocks_view(new_blocks@);
            new_blocks.push(EmbeddingBlock { block: bnum, embeddings: current });
            proof {
                assert(prev == chunked(st).take(i));
                assert(new_blocks@.len() == prev.len() + 1);
                assert(prev.len() == i);
                assert(bnum == i as u64);
                assert(new_blocks@.last()@ =~= chunked(st)[i]);
                assert(forall|k: int|
                    0 <= k < prev.len() ==> #[trigger] blocks_view(new_blocks@)[k] == prev[k]);
                assert(blocks_view(new_blocks@) =~= chunked(st));
            }
        } else {
            proof {
                assert(j == n);
                assert(st.len() == n);
                assert(n % BLOCK_SIZE == 0);
                if n > 0 {
                    assert(n as int == (n as int / 1024) * 1024 + (n as int % 1024));
                    assert((n - 1) as int == n as int - 1);
                    assert(chunk_count(n as int) == (n - 1) as int / 1024 + 1);
                    assert((n as int - 1) / 1024 == n as int / 1024 - 1) by (nonlinear_arith)
                        requires
                            n as int % 1024 == 0,
                            n as int >= 1,
                            n as int == (n as int / 1024) * 1024,
                            n as int - 1 == ((n as int - 1) / 1024) * 1024 + (n as int - 1) % 1024,
                            0 <= (n as int - 1) % 1024 < 1024,
                    ;
                    assert(chunk_count(n as int) == (n / BLOCK_SIZE) as int);
                }
                assert(blocks_view(new_blocks@) == chunked(st).take((n / BLOCK_SIZE) as int));
                assert(chunked(st).take(chunk_count(st.len() as int)) =~= chunked(st));
                assert(blocks_view(new_blocks@) =~= chunked(st));
            }
        }
        self.blocks = new_blocks;
        self.directory = Directory { entries: new_dir };
        proof {
            assert(chunk_dir(st).take(n as int) =~= chunk_dir(st));
            assert(embs_wf(st)) by {
                assert forall|k: int| 0 <= k < st.len() implies (#[trigger] st[k]).data.len()
                    <= MAX_DIM && unit_bounded(st[k].data) by {
                    assert(st[k].data == embs_view(embeddings@)[k].data);
                }
            }
            lemma_chunked_wf(st);
            assert(final(self).v_blocks() == chunked(st));
        }
    }
}

/// One embedding as it was read out of a block file.
#[derive(Debug)]
pub struct BlockEmbedding {
    pub block_number: u64,
    pub embedding: Box<Embedding>,
    pub source_file: String,
}

/// All embeddings of all blocks, in block order, each tagged with its
/// block number.
pub open spec fn flat_blocks(bs: Seq<BlockV>) -> Seq<(u64, EmbeddingView)>
    decreases bs.len(),
{
    if bs.len() == 0 {
        Seq::empty()
    } else {
        Seq::new(bs[0].embeddings.len(), |m: int| (bs[0].block, bs[0].embeddings[m]))
            + flat_blocks(bs.drop_first())
    }
}

/// `flat_blocks` grows block by block.
proof fn lemma_flat_blocks_snoc(bs: Seq<BlockV>, b: BlockV)
    ensures
        flat_blocks(bs.push(b)) == flat_blocks(bs) + Seq::new(
            b.embeddings.len(),
            |m: int| (b.block, b.embeddings[m]),
        ),
    decreases bs.len(),
{
    let p = bs.push(b);
    let tag = Seq::new(b.embeddings.len(), |m: int| (b.block, b.embeddings[m]));
    if bs.len() == 0 {
        assert(p.drop_first() =~= Seq::<BlockV>::empty());
        assert(flat_blocks(Seq::<BlockV>::empty()) =~= Seq::<(u64, EmbeddingView)>::empty());
        assert(p[0] == b);
        assert(flat_blocks(p) == Seq::new(p[0].embeddings.len(), |m: int| (p[0].block, p[0].embeddings[m])) + flat_blocks(p.drop_first()));
        assert(flat_blocks(p) =~= tag);
        assert(flat_blocks(bs) + tag =~= tag);
    } else {
        assert(p.drop_first() =~= bs.drop_first().push(b));
        lemma_flat_blocks_snoc(bs.drop_first(), b);
        assert(p[0] == bs[0]);
        let head = Seq::new(bs[0].embeddings.len(), |m: int| (bs[0].block, bs[0].embeddings[m]));
        assert(flat_blocks(p) == head + (flat_blocks(bs.drop_first()) + tag));
        assert(head + (flat_blocks(bs.drop_first()) + tag) =~= (head + flat_blocks(
            bs.drop_first(),
        )) + tag);
    }
}

impl BlockStore {
    /// Every embedding of every block, in block order, re-normalized on
    /// the way out; each carries its block number, also as the decimal
    /// name of the file it came from.
    pub fn get_all_blocks(&self) -> (r: Vec<BlockEmbedding>)
        requires
            self.wf(),
        ensures
            r@.len() == flat_blocks(self.v_blocks()).len(),
            forall|k: int|
                0 <= k < r@.len() ==> {
                    let (bn, e) = flat_blocks(self.v_blocks())[k];
                    &&& (#[trigger] r@[k]).block_number == bn
                    &&& r@[k].embedding@.id == e.id
                    &&& r@[k].embedding@.source_file == e.source_file
                    &&& is_normalization_of(r@[k].embedding@.data, e.data)
                    &&& unit_bounded(r@[k].embedding@.data)
                    &&& all_digits(r@[k].source_file@) && dec_value(r@[k].source_file@) == bn
                },
    {
        let mut out: Vec<BlockEmbedding> = Vec::new();
        let nb = self.blocks.len();
        let mut i: usize = 0;
        let ghost flat = flat_blocks(self.v_blocks());
        proof {
            assert(flat_blocks(self.v_blocks().take(0)) =~= Seq::<(u64, EmbeddingView)>::empty());
        }
        while i < nb
            invariant
                i <= nb,
                nb == self.v_blocks().len(),
                self.wf(),
                out@.len() == flat_blocks(self.v_blocks().take(i as int)).len(),
                forall|k: int|
                    0 <= k < out@.len() ==> {
                        let (bn, e) = flat_blocks(self.v_blocks().take(i as int))[k];
                        &&& (#[trigger] out@[k]).block_number == bn
                        &&& out@[k].embedding@.id == e.id
                        &&& out@[k].embedding@.source_file == e.source_file
                        &&& is_normalization_of(out@[k].embedding@.data, e.data)
                        &&& unit_bounded(out@[k].embedding@.data)
                        &&& all_digits(out@[k].source_file@) && dec_value(out@[k].source_file@)
                            == bn
                    },
            decreases nb - i,
        {
            let bnum = self.blocks[i].block;
            let name = render_u64_string(bnum);
            let ghost bv = self.v_blocks()[i as int];
            let ghost done = flat_blocks(self.v_blocks().take(i as int));
            let ghost tag = Seq::new(bv.embeddings.len(), |m: int| (bv.block, bv.embeddings[m]));
            proof {
                assert(self.v_blocks().take(i as int + 1).drop_last() =~= self.v_blocks().take(
                    i as int,
                ));
                assert(self.v_blocks().take(i as int + 1) =~= self.v_blocks().take(
                    i as int,
                ).push(bv));
                lemma_flat_blocks_snoc(self.v_blocks().take(i as int), bv);
            }
            let m = self.blocks[i].embeddings.len();
            let mut k: usize = 0;
            while k < m
                invariant
                    k <= m,
                    i < nb,
                    nb == self.v_blocks().len(),
                    self.wf(),
                    bv == self.v_blocks()[i as int],
                    m == bv.embeddings.len(),
                    bnum == bv.block,
                    all_digits(name@) && dec_value(name@) == bnum,
                    tag == Seq::new(
                        bv.embeddings.len(),
                        |mm: int| (bv.block, bv.embeddings[mm]),
                    ),
                    out@.len() == done.len() + k,
                    forall|q: int|
                        0 <= q < done.len() ==> {
                            let (bn, e) = done[q];
                            &&& (#[trigger] out@[q]).block_number == bn
                            &&& out@[q].embedding@.id == e.id
                            &&& out@[q].embedding@.source_file == e.source_file
                            &&& is_normalization_of(out@[q].embedding@.data, e.data)
                            &&& unit_bounded(out@[q].embedding@.data)
                            &&& all_digits(out@[q].source_file@) && dec_value(out@[q].source_file@)
                                == bn
                        },
                    forall|q: int|
                        done.len() <= q < out@.len() ==> {
                            let (bn, e) = tag[q - done.len()];
                            &&& (#[trigger] out@[q]).block_number == bn
                            &&& out@[q].embedding@.id == e.id
                            &&& out@[q].embedding@.source_file == e.source_file
                            &&& is_normalization_of(out@[q].embedding@.data, e.data)
                            &&& unit_bounded(out@[q].embedding@.data)
                            &&& all_digits(out@[q].source_file@) && dec_value(out@[q].source_file@)
                                == bn
                        },
                decreases m - k,
            {
                let mut e = self.blocks[i].embeddings[k].duplicate();
                proof {
                    assert(embs_wf(bv.embeddings));
                    assert(bv.embeddings[k as int].data.len() <= MAX_DIM);
                    assert(unit_bounded(bv.embeddings[k as int].data));
                    assert(crate::embedding::raw_bounded(e.data@));
                }
                normalize(&mut e);
                out.push(
                    BlockEmbedding {
                        block_number: bnum,
                        embedding: Box::new(e),
                        source_file: name.clone(),
                    },
                );
                k = k + 1;
            }
            proof {
                assert(flat_blocks(self.v_blocks().take(i as int + 1)) == done + tag);
                assert forall|q: int|
                    0 <= q < out@.len() implies {
                    let (bn, e) = flat_blocks(self.v_blocks().take(i as int + 1))[q];
                    &&& (#[trigger] out@[q]).block_number == bn
                    &&& out@[q].embedding@.id == e.id
                    &&& out@[q].embedding@.source_file == e.source_file
                    &&& is_normalization_of(out@[q].embedding@.data, e.data)
                    &&& unit_bounded(out@[q].embedding@.data)
                    &&& all_digits(out@[q].source_file@) && dec_value(out@[q].source_file@) == bn
                } by {
                    if q < done.len() {
                        assert((done + tag)[q] == done[q]);
                    } else {
                        assert((done + tag)[q] == tag[q - done.len()]);
                    }
                }
            }
            i = i + 1;
        }
        proof {
            assert(self.v_blocks().take(nb as int) =~= self.v_blocks());
        }
        out
    }
}

/// Read the id counter from the text of its file: an empty file means
/// zero, anything else must be a decimal numeral.
pub fn parse_id_counter(text: &str) -> (r: Result<u64, StoreError>)
    ensures
        match r {
            Ok(v) => (text@.len() == 0 && v == 0) || (all_digits(text@) && v == dec_value(text@)),
            Err(e) => e == StoreError::Corrupt && text@.len() > 0 && (!all_digits(text@)
                || dec_value(text@) > u64::MAX),
        },
{
    let chars = crate::text::string_to_chars(text);
    if chars.len() == 0 {
        return Ok(0);
    }
    match crate::text::parse_u64_chars(&chars) {
        Some(v) => Ok(v),
        None => Err(StoreError::Corrupt),
    }
}

/// Directory/block coherence of a chunked layout: every directory entry
/// points at a block that exists and holds an embedding with that id and
/// filepath; conversely every embedding of every block is referenced by
/// exactly one directory entry (ids in the directory are unique whenever
/// the embeddings' ids are).
///
/// `sync_index` establishes exactly this shape, and so does the reblock
/// pass; this law ties their block layout to their directory.
pub proof fn lemma_chunk_coherence(es: Seq<EmbeddingView>)
    requires
        es.len() <= 0xffffffffffffffff,
        forall|p: int, q: int| 0 <= p < q < es.len() ==> (#[trigger] es[p]).id != (#[trigger] es[q]).id,
    ensures
        forall|k: int|
            0 <= k < chunk_dir(es).len() ==> {
                let entry = #[trigger] chunk_dir(es)[k];
                match find_block(chunked(es), entry.block) {
                    Some(bes) => exists|m: int|
                        0 <= m < bes.len() && (#[trigger] bes[m]).id == entry.id
                            && bes[m].source_file.filepath == entry.filepath,
                    None => false,
                }
            },
        forall|i: int, m: int|
            0 <= i < chunked(es).len() && 0 <= m < chunked(es)[i].embeddings.len()
                ==> exists|k: int|
                0 <= k < chunk_dir(es).len() && (#[trigger] chunk_dir(es)[k]).id == (
                #[trigger] chunked(es)[i].embeddings[m]).id && chunk_dir(es)[k].block == chunked(
                    es,
                )[i].block,
        forall|k1: int, k2: int|
            0 <= k1 < k2 < chunk_dir(es).len() ==> (#[trigger] chunk_dir(es)[k1]).id != (
            #[trigger] chunk_dir(es)[k2]).id,
{
    let bs = chunked(es);
    let dir = chunk_dir(es);
    let b = BLOCK_SIZE as int;
    let n = es.len() as int;
    lemma_unique_chunk_numbers(es);
    assert forall|k: int| 0 <= k < dir.len() implies {
        let entry = #[trigger] dir[k];
        match find_block(bs, entry.block) {
            Some(bes) => exists|m: int|
                0 <= m < bes.len() && (#[trigger] bes[m]).id == entry.id
                    && bes[m].source_file.filepath == entry.filepath,
            None => false,
        }
    } by {
        let i = k / b;
        let m = k % b;
        vstd::arithmetic::div_mod::lemma_fundamental_div_mod(k, b);
        assert(0 <= m < b) by {
            vstd::arithmetic::div_mod::lemma_mod_bound(k, b);
        }
        assert(0 <= i) by (nonlinear_arith)
            requires
                k >= 0,
                b == 1024,
                k == b * i + m,
                0 <= m < b,
        ;
        vstd::arithmetic::div_mod::lemma_fundamental_div_mod(n - 1, b);
        let q = (n - 1) / b;
        assert(chunk_count(n) == q + 1);
        assert(i <= q) by (nonlinear_arith)
            requires
                b == 1024,
                k == b * i + m,
                0 <= m < b,
                n - 1 == b * q + (n - 1) % b,
                0 <= (n - 1) % b < b,
                k <= n - 1,
        ;
        assert(i < bs.len());
        assert(bs[i].block == i as u64);
        let lo = i * b;
        let hi = if (i + 1) * b <= n { (i + 1) * b } else { n };
        assert((i + 1) * b == i * b + b) by (nonlinear_arith);
        assert(lo <= k < hi);
        assert(bs[i].embeddings == es.subrange(lo, hi));
        assert(0 <= m < hi - lo);
        assert(bs[i].embeddings[m] == es[lo + m]);
        assert(lo + m == k);
        lemma_find_block_by_index(bs, i);
        assert(dir[k].block == i as u64);
        assert(find_block(bs, dir[k].block) == Some(bs[i].embeddings));
        assert(bs[i].embeddings[m].id == dir[k].id);
        assert(bs[i].embeddings[m].source_file.filepath == dir[k].filepath);
        match find_block(bs, dir[k].block) {
            Some(bes2) => {
                assert(bes2 == bs[i].embeddings);
                assert(0 <= m < bes2.len() && bes2[m].id == dir[k].id
                    && bes2[m].source_file.filepath == dir[k].filepath);
                assert(exists|m2: int|
                    0 <= m2 < bes2.len() && (#[trigger] bes2[m2]).id == dir[k].id
                        && bes2[m2].source_file.filepath == dir[k].filepath);
            },
            None => {
                assert(false);
            },
        }
    }
    assert forall|i: int, m: int|
        0 <= i < bs.len() && 0 <= m < bs[i].embeddings.len() implies exists|k: int|
        0 <= k < dir.len() && (#[trigger] dir[k]).id == (#[trigger] bs[i].embeddings[m]).id
            && dir[k].block == bs[i].block by {
        let lo = i * b;
        let hi = if (i + 1) * b <= n { (i + 1) * b } else { n };
        assert((i + 1) * b == i * b + b) by (nonlinear_arith);
        assert(0 <= lo) by (nonlinear_arith)
            requires
                i >= 0,
                b == 1024,
                lo == i * b,
        ;
        assert(bs[i].embeddings == es.subrange(lo, hi));
        let k = lo + m;
        assert(0 <= k < n);
        assert(k / b == i && k % b == m) by (nonlinear_arith)
            requires
                b == 1024,
                k == i * b + m,
                0 <= m < b,
                0 <= i,
                k == b * (k / b) + k % b,
                0 <= k % b < b,
        ;
        assert(bs[i].embeddings[m] == es[k]);
        assert(dir[k].id == es[k].id);
        assert(dir[k].block == i as u64);
        assert(bs[i].block == i as u64);
    }
}

/// The chunk numbers are exactly the chunk indexes, hence unique.
proof fn lemma_unique_chunk_numbers(es: Seq<EmbeddingView>)
    requires
        es.len() <= 0xffffffffffffffff,
    ensures
        forall|p: int, q: int|
            0 <= p < q < chunked(es).len() ==> (#[trigger] chunked(es)[p]).block != (
            #[trigger] chunked(es)[q]).block,
{
    let cs = chunked(es);
    assert(cs.len() <= es.len());
    assert forall|p: int, q: int| 0 <= p < q < cs.len() implies (#[trigger] cs[p]).block != (
        #[trigger] cs[q]).block by {
        assert(cs[p].block == p as u64);
        assert(cs[q].block == q as u64);
    }
}

/// `find_block` returns the block at the index carrying its number, when
/// numbers are unique.
proof fn lemma_find_block_by_index(bs: Seq<BlockV>, i: int)
    requires
        0 <= i < bs.len(),
        forall|p: int, q: int|
            0 <= p < q < bs.len() ==> (#[trigger] bs[p]).block != (#[trigger] bs[q]).block,
    ensures
        find_block(bs, bs[i].block) == Some(bs[i].embeddings),
    decreases i,
{
    if i == 0 {
    } else {
        assert(bs[0].block != bs[i].block);
        assert(forall|j: int|
            1 <= j < bs.len() ==> bs[j] == #[trigger] bs.drop_first()[j - 1]);
        lemma_find_block_by_index(bs.drop_first(), i - 1);
    }
}

impl BlockStore {
    /// Replace all blocks and the directory with a fresh chunked layout of
    /// the given embeddings, keeping their ids; the id counter is not
    /// touched.  Used by the reblock pass.
    pub fn rewrite_blocks(&mut self, embeddings: &Vec<Embedding>)
        requires
            old(self).wf(),
            embs_wf(embs_view(embeddings@)),
        ensures
            final(self).wf(),
            final(self).id_counter == old(self).id_counter,
            final(self).v_blocks() == chunked(embs_view(embeddings@)),
            final(self).v_dir() == chunk_dir(embs_view(embeddings@)),
    {
        let ghost st = embs_view(embeddings@);
        let n = embeddings.len();
        let mut new_blocks: Vec<EmbeddingBlock> = Vec::new();
        let mut new_dir: Vec<DirectoryEntry> = Vec::new();
        let mut current: Vec<Embedding> = Vec::new();
        let mut j: usize = 0;
        proof {
            assert(blocks_view(new_blocks@) =~= chunked(st).take(0));
            assert(embs_view(current@) =~= st.subrange(0, 0));
            assert(crate::directory::entries_view(new_dir@) =~= chunk_dir(st).take(0));
        }
        while j < n
            invariant
                j <= n,
                n == embeddings@.len(),
                st == embs_view(embeddings@),
                current@.len() == j % BLOCK_SIZE,
                embs_view(current@) == st.subrange(j as int - (j % BLOCK_SIZE) as int, j as int),
                new_blocks@.len() == j / BLOCK_SIZE,
                blocks_view(new_blocks@) == chunked(st).take((j / BLOCK_SIZE) as int),
                new_dir@.len() == j,
                crate::directory::entries_view(new_dir@) == chunk_dir(st).take(j as int),
            decreases n - j,
        {
            let e = embeddings[j].duplicate();
            proof {
                assert(e@ == st[j as int]);
            }
            new_dir.push(
                DirectoryEntry {
                    id: e.id,
                    filepath: e.source_file.filepath.clone(),
                    block: ((j / BLOCK_SIZE) as u64),
                },
            );
            proof {
                assert(chunk_dir(st).take(j as int + 1).drop_last() =~= chunk_dir(st).take(
                    j as int,
                ));
                assert(crate::directory::entries_view(new_dir@) =~= chunk_dir(st).take(
                    j as int + 1,
                ));
            }
            current.push(e);
            proof {
                assert(embs_view(current@) =~= st.subrange(
                    j as int - (j % BLOCK_SIZE) as int,
                    j as int + 1,
                ));
            }
            if current.len() == BLOCK_SIZE {
                let ghost i = (j / BLOCK_SIZE) as int;
                let ghost bv = chunked(st)[i];
                proof {
                    assert(j as int - (j % BLOCK_SIZE) as int == i * (BLOCK_SIZE as int));
                    assert(j as int + 1 == (i + 1) * (BLOCK_SIZE as int));
                    assert((i + 1) * (BLOCK_SIZE as int) <= st.len());
                    assert(i < chunk_count(st.len() as int));
                    assert(embs_view(current@) == bv.embeddings);
                }
                let bnum = new_blocks.len() as u64;
                let filled = current;
                current = Vec::new();
                new_blocks.push(EmbeddingBlock { block: bnum, embeddings: filled });
                proof {
                    assert((j as int + 1) % (BLOCK_SIZE as int) == 0);
                    assert((j as int + 1) / (BLOCK_SIZE as int) == i + 1);
                    assert(chunked(st).take(i + 1).drop_last() =~= chunked(st).take(i));
                    assert(new_blocks@.last()@ =~= bv);
                    assert(blocks_view(new_blocks@) =~= chunked(st).take(i + 1));
                    assert(embs_view(current@) =~= st.subrange(j as int + 1, j as int + 1));
                }
            } else {
                proof {
                    assert((j as int + 1) % (BLOCK_SIZE as int) == (j % BLOCK_SIZE) as int + 1);
                    assert((j as int + 1) / (BLOCK_SIZE as int) == (j / BLOCK_SIZE) as int);
                }
            }
            j = j + 1;
        }
        if current.len() > 0 {
            let ghost ccount = chunk_count(st.len() as int);
            let ghost i = (n / BLOCK_SIZE) as int;
            proof {
                assert(n % BLOCK_SIZE != 0);
                assert(ccount == i + 1);
                assert(n as int - (n % BLOCK_SIZE) as int == i * (BLOCK_SIZE as int));
                assert((i + 1) * (BLOCK_SIZE as int) > st.len());
                assert(embs_view(current@) == chunked(st)[i].embeddings);
            }
            let bnum = new_blocks.len() as u64;
            let ghost prev = blocks_view(new_blocks@);
            new_blocks.push(EmbeddingBlock { block: bnum, embeddings: current });
            proof {
                assert(prev == chunked(st).take(i));
                assert(new_blocks@.len() == prev.len() + 1);
                assert(prev.len() == i);
                assert(bnum == i as u64);
                assert(new_blocks@.last()@ =~= chunked(st)[i]);
                assert(forall|k: int|
                    0 <= k < prev.len() ==> #[trigger] blocks_view(new_blocks@)[k] == prev[k]);
                assert(blocks_view(new_blocks@) =~= chunked(st));
            }
        } else {
            proof {
                assert(j == n);
                assert(st.len() == n);
                assert(n % BLOCK_SIZE == 0);
                if n > 0 {
                    assert(n as int == (n as int / 1024) * 1024 + (n as int % 1024));
                    assert((n - 1) as int == n as int - 1);
                    assert(chunk_count(n as int) == (n - 1) as int / 1024 + 1);
                    assert((n as int - 1) / 1024 == n as int / 1024 - 1) by (nonlinear_arith)
                        requires
                            n as int % 1024 == 0,
                            n as int >= 1,
                            n as int == (n as int / 1024) * 1024,
                            n as int - 1 == ((n as int - 1) / 1024) * 1024 + (n as int - 1) % 1024,
                            0 <= (n as int - 1) % 1024 < 1024,
                    ;
                    assert(chunk_count(n as int) == (n / BLOCK_SIZE) as int);
                }
                assert(blocks_view(new_blocks@) == chunked(st).take((n / BLOCK_SIZE) as int));
                assert(chunked(st).take(chunk_count(st.len() as int)) =~= chunked(st));
                assert(blocks_view(new_blocks@) =~= chunked(st));
            }
        }
        self.blocks = new_blocks;
        self.directory = Directory { entries: new_dir };
        proof {
            assert(chunk_dir(st).take(n as int) =~= chunk_dir(st));
            lemma_chunked_wf(st);
        }
    }
}

/// The blocks a sync produces are well formed: unique ascending numbers,
/// sizes within `BLOCK_SIZE`, contents well formed.
proof fn lemma_chunked_wf(es: Seq<EmbeddingView>)
    requires
        embs_wf(es),
        es.len() <= 0xffffffffffffffff,
    ensures
        forall|i: int, j: int|
            0 <= i < j < chunked(es).len() ==> (#[trigger] chunked(es)[i]).block != (
            #[trigger] chunked(es)[j]).block,
        forall|i: int|
            0 <= i < chunked(es).len() ==> (#[trigger] chunked(es)[i]).embeddings.len()
                <= BLOCK_SIZE,
        forall|i: int|
            0 <= i < chunked(es).len() ==> embs_wf((#[trigger] chunked(es)[i]).embeddings),
{
    let cs = chunked(es);
    assert(cs.len() <= es.len());
    assert forall|i: int, j: int| 0 <= i < j < cs.len() implies (#[trigger] cs[i]).block != (
        #[trigger] cs[j]).block by {
        assert(cs[i].block == i as u64);
        assert(cs[j].block == j as u64);
    }
    assert forall|i: int| 0 <= i < cs.len() implies (#[trigger] cs[i]).embeddings.len()
        <= BLOCK_SIZE && embs_wf(cs[i].embeddings) by {
        assert(i * (BLOCK_SIZE as int) >= 0) by (nonlinear_arith)
            requires
                i >= 0,
        ;
        assert(i * (BLOCK_SIZE as int) < (i + 1) * (BLOCK_SIZE as int)) by (nonlinear_arith);
        assert((i + 1) * (BLOCK_SIZE as int) - i * (BLOCK_SIZE as int) == BLOCK_SIZE as int)
            by (nonlinear_arith);
        assert(i * (BLOCK_SIZE as int) <= es.len()) by (nonlinear_arith)
            requires
                i < chunk_count(es.len() as int),
                es.len() as int == (es.len() as int / 1024) * 1024 + (es.len() as int % 1024),
                0 <= es.len() as int % 1024 < 1024,
                BLOCK_SIZE as int == 1024,
                chunk_count(es.len() as int) == if es.len() == 0 {
                    0int
                } else {
                    (es.len() - 1) as int / 1024 + 1
                },
                (es.len() - 1) as int == ((es.len() - 1) as int / 1024) * 1024 + ((es.len()
                    - 1) as int % 1024),
                0 <= (es.len() - 1) as int % 1024 < 1024,
                i >= 0,
        ;
        let sub = cs[i].embeddings;
        assert(embs_wf(sub)) by {
            assert forall|k: int| 0 <= k < sub.len() implies (#[trigger] sub[k]).data.len()
                <= MAX_DIM && unit_bounded(sub[k].data) by {
                assert(sub[k] == es[i * (BLOCK_SIZE as int) + k]);
                assert(es[i * (BLOCK_SIZE as int) + k].data.len() <= MAX_DIM && unit_bounded(
                    es[i * (BLOCK_SIZE as int) + k].data,
                ));
            }
        }
    }
}

impl BlockStore {
    /// Every stored vector has dimension `d`.
    pub open spec fn uniform_dim(&self, d: nat) -> bool {
        forall|i: int, m: int|
            0 <= i < self.v_blocks().len() && 0 <= m < self.v_blocks()[i].embeddings.len() ==> (
            #[trigger] self.v_blocks()[i].embeddings[m]).data.len() == d
    }

    /// Every id the directory lists resolves to a stored embedding.
    pub open spec fn dir_resolves(&self) -> bool {
        forall|k: int|
            0 <= k < self.v_dir().len() ==> self.lookup((#[trigger] self.v_dir()[k]).id) is Some
    }
}

/// A found block is one of the listed blocks.
proof fn lemma_find_block_is_listed(bs: Seq<BlockV>, n: u64)
    requires
        find_block(bs, n) is Some,
    ensures
        exists|i: int|
            0 <= i < bs.len() && find_block(bs, n) == Some((#[trigger] bs[i]).embeddings),
    decreases bs.len(),
{
    if bs.len() > 0 && bs[0].block != n {
        lemma_find_block_is_listed(bs.drop_first(), n);
        let i0 = choose|i: int|
            0 <= i < bs.drop_first().len() && find_block(bs.drop_first(), n) == Some(
                (#[trigger] bs.drop_first()[i]).embeddings,
            );
        assert(bs[i0 + 1] == bs.drop_first()[i0]);
    }
}

/// A found embedding is one of the listed embeddings, and carries the id
/// looked up.
proof fn lemma_find_emb_is_member(es: Seq<EmbeddingView>, id: u64)
    requires
        find_emb(es, id) is Some,
    ensures
        exists|m: int| 0 <= m < es.len() && find_emb(es, id) == Some(#[trigger] es[m]),
        match find_emb(es, id) {
            Some(e) => e.id == id,
            None => true,
        },
    decreases es.len(),
{
    if es.len() > 0 && es[0].id != id {
        lemma_find_emb_is_member(es.drop_first(), id);
        let m0 = choose|m: int|
            0 <= m < es.drop_first().len() && find_emb(es.drop_first(), id) == Some(
                #[trigger] es.drop_first()[m],
            );
        assert(es[m0 + 1] == es.drop_first()[m0]);
    }
}

/// What a lookup returns in a well-formed store: a normalized vector of
/// bounded dimension carrying the id looked up.
pub proof fn lemma_lookup_wf(store: &BlockStore, id: u64)
    requires
        store.wf(),
        store.lookup(id) is Some,
    ensures
        match store.lookup(id) {
            Some(e) => e.id == id && e.data.len() <= MAX_DIM && unit_bounded(e.data),
            None => true,
        },
{
    let n = block_of_id(store.v_dir(), id)->Some_0;
    lemma_find_block_is_listed(store.v_blocks(), n);
    let i = choose|i: int|
        0 <= i < store.v_blocks().len() && find_block(store.v_blocks(), n) == Some(
            (#[trigger] store.v_blocks()[i]).embeddings,
        );
    let es = store.v_blocks()[i].embeddings;
    lemma_find_emb_is_member(es, id);
    let m = choose|m: int| 0 <= m < es.len() && find_emb(es, id) == Some(#[trigger] es[m]);
    assert(embs_wf(es));
    assert(es[m].data.len() <= MAX_DIM && unit_bounded(es[m].data));
}

/// What a lookup returns in a well-formed store of uniform dimension: a
/// normalized vector of that dimension carrying the id looked up.
pub proof fn lemma_lookup_props(store: &BlockStore, id: u64, d: nat)
    requires
        store.wf(),
        store.uniform_dim(d),
        store.lookup(id) is Some,
    ensures
        match store.lookup(id) {
            Some(e) => e.id == id && e.data.len() == d && unit_bounded(e.data) && e.data.len()
                <= MAX_DIM,
            None => true,
        },
{
    let n = block_of_id(store.v_dir(), id)->Some_0;
    lemma_find_block_is_listed(store.v_blocks(), n);
    let i = choose|i: int|
        0 <= i < store.v_blocks().len() && find_block(store.v_blocks(), n) == Some(
            (#[trigger] store.v_blocks()[i]).embeddings,
        );
    let es = store.v_blocks()[i].embeddings;
    lemma_find_emb_is_member(es, id);
    let m = choose|m: int| 0 <= m < es.len() && find_emb(es, id) == Some(#[trigger] es[m]);
    assert(embs_wf(es));
    assert(es[m].data.len() <= MAX_DIM && unit_bounded(es[m].data));
    assert(es[m].data.len() == d);
}

/// `find_block` after updating the position holding `n`.
proof fn lemma_find_block_update(bs: Seq<BlockV>, i: int, b: BlockV)
    requires
        0 <= i < bs.len(),
        bs[i].block == b.block,
        forall|j: int| 0 <= j < i ==> (#[trigger] bs[j]).block != b.block,
    ensures
        find_block(bs.update(i, b), b.block) == Some(b.embeddings),
        forall|m: u64| m != b.block ==> #[trigger] find_block(bs.update(i, b), m) == find_block(
            bs,
            m,
        ),
    decreases bs.len(),
{
    let nb = bs.update(i, b);
    if i == 0 {
        assert(nb[0] == b);
        assert forall|m: u64| m != b.block implies #[trigger] find_block(nb, m) == find_block(
            bs,
            m,
        ) by {
            assert(nb.drop_first() =~= bs.drop_first());
        }
    } else {
        assert(nb[0] == bs[0]);
        assert(nb.drop_first() =~= bs.drop_first().update(i - 1, b));
        lemma_find_block_update(bs.drop_first(), i - 1, b);
        assert(bs[0].block != b.block);
        assert forall|m: u64| m != b.block implies #[trigger] find_block(nb, m) == find_block(
            bs,
            m,
        ) by {
            if bs[0].block != m {
                assert(find_block(bs.drop_first().update(i - 1, b), m) == find_block(
                    bs.drop_first(),
                    m,
                ));
            }
        }
    }
}

/// `find_block` after appending a block with a fresh number.
proof fn lemma_find_block_push(bs: Seq<BlockV>, b: BlockV)
    requires
        forall|j: int| 0 <= j < bs.len() ==> (#[trigger] bs[j]).block != b.block,
    ensures
        find_block(bs.push(b), b.block) == Some(b.embeddings),
        forall|m: u64| m != b.block ==> #[trigger] find_block(bs.push(b), m) == find_block(bs, m),
    decreases bs.len(),
{
    let nb = bs.push(b);
    if bs.len() == 0 {
        assert(nb[0] == b);
        assert(nb.drop_first() =~= Seq::<BlockV>::empty());
        assert forall|m: u64| m != b.block implies #[trigger] find_block(nb, m) == find_block(
            bs,
            m,
        ) by {
            assert(find_block(nb.drop_first(), m) is None);
        }
    } else {
        assert(nb[0] == bs[0]);
        assert(nb.drop_first() =~= bs.drop_first().push(b));
        lemma_find_block_push(bs.drop_first(), b);
        assert(find_block(nb, b.block) == Some(b.embeddings));
        assert forall|m: u64| m != b.block implies #[trigger] find_block(nb, m) == find_block(
            bs,
            m,
        ) by {
            if bs[0].block != m {
                assert(find_block(bs.drop_first().push(b), m) == find_block(bs.drop_first(), m));
            }
        }
    }
}

} // verus!
