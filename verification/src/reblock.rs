//! The reblock pass and file-level re-embedding.
//!
//! Reblock re-lays the block files out along graph locality: the bottom
//! layer of the index is walked depth first, closest neighbor first, and
//! the visit order is packed into fresh blocks of `BLOCK_SIZE`; metadata is
//! refreshed from the ledger on the way.  Afterwards the block files hold
//! exactly the bottom layer's nodes and the directory matches them line by
//! line.

use vstd::prelude::*;

use crate::cache::EmbeddingCache;
use crate::embedding::{copy_meta, strings_view, Embedding, EmbeddingView, SourceView};
use crate::error::StoreError;
use crate::hnsw::{id_in, neighbors_of, NodeV, HNSW};
use crate::store::{chunk_dir, chunked, embs_view, embs_wf, BlockStore};
use crate::text::str_eq;
use crate::BLOCK_SIZE;

verus! {

/// One ledger line: a source file and its current metadata tags.
#[derive(Debug)]
pub struct LedgerEntry {
    pub filepath: String,
    pub meta: Vec<String>,
}

/// Mathematical image of a ledger entry.
#[verifier::ext_equal]
pub ghost struct LedgerEntryV {
    pub filepath: Seq<char>,
    pub meta: Seq<Seq<char>>,
}

impl View for LedgerEntry {
    type V = LedgerEntryV;

    open spec fn view(&self) -> LedgerEntryV {
        LedgerEntryV { filepath: self.filepath@, meta: strings_view(self.meta@) }
    }
}

/// The images of the ledger's entries.
pub open spec fn ledger_view(ls: Seq<LedgerEntry>) -> Seq<LedgerEntryV> {
    Seq::new(ls.len(), |i: int| ls[i]@)
}

/// The metadata the ledger holds for a filepath, if any: the first
/// matching entry wins.
pub open spec fn ledger_meta(ls: Seq<LedgerEntryV>, filepath: Seq<char>) -> Option<Seq<Seq<char>>>
    decreases ls.len(),
{
    if ls.len() == 0 {
        None
    } else if ls[0].filepath == filepath {
        Some(ls[0].meta)
    } else {
        ledger_meta(ls.drop_first(), filepath)
    }
}

/// An embedding with its metadata refreshed from the ledger (kept as it
/// was when the ledger does not list its file).
pub open spec fn refreshed(e: EmbeddingView, ls: Seq<LedgerEntryV>) -> EmbeddingView {
    EmbeddingView {
        source_file: SourceView {
            meta: match ledger_meta(ls, e.source_file.filepath) {
                Some(m) => m,
                None => e.source_file.meta,
            },
            ..e.source_file
        },
        ..e
    }
}

/// Look a filepath up in the ledger.
fn ledger_lookup(ledger: &Vec<LedgerEntry>, filepath: &str) -> (r: Option<Vec<String>>)
    ensures
        match r {
            Some(m) => ledger_meta(ledger_view(ledger@), filepath@) == Some(strings_view(m@)),
            None => ledger_meta(ledger_view(ledger@), filepath@) is None,
        },
{
    let n = ledger.len();
    let mut i: usize = 0;
    proof {
        assert(ledger_view(ledger@).skip(0) =~= ledger_view(ledger@));
    }
    while i < n
        invariant
            i <= n,
            n == ledger@.len(),
            ledger_meta(ledger_view(ledger@), filepath@) == ledger_meta(
                ledger_view(ledger@).skip(i as int),
                filepath@,
            ),
        decreases n - i,
    {
        proof {
            assert(ledger_view(ledger@).skip(i as int)[0] == ledger_view(ledger@)[i as int]);
            assert(ledger_view(ledger@).skip(i as int).drop_first() =~= ledger_view(
                ledger@,
            ).skip(i as int + 1));
        }
        if str_eq(ledger[i].filepath.as_str(), filepath) {
            return Some(copy_meta(&ledger[i].meta));
        }
        i = i + 1;
    }
    proof {
        assert(ledger_view(ledger@).skip(n as int) =~= Seq::<LedgerEntryV>::empty());
    }
    None
}

/// Re-lay the block files out along graph locality.
///
/// The bottom layer is walked depth first from each not-yet-visited node
/// in turn, expanding the closest neighbor first; every node of the layer
/// is visited exactly once.  Each visited id is fetched through the
/// cache, its metadata refreshed from the ledger, and the visit order is
/// chunked into fresh blocks with a matching directory.  An index without
/// layers leaves the store untouched, as does any error.
pub fn reblock(
    store: &mut BlockStore,
    index: &HNSW,
    cache: &mut EmbeddingCache,
    ledger: &Vec<LedgerEntry>,
) -> (r: Result<(), StoreError>)
    requires
        old(store).wf(),
        old(cache).wf(),
        old(cache).coherent(old(store)),
        index.wf(),
    ensures
        final(store).wf(),
        final(store).id_counter == old(store).id_counter,
        r is Err ==> final(store).v_blocks() == old(store).v_blocks() && final(store).v_dir()
            == old(store).v_dir(),
        index.v_layers().len() == 0 ==> r is Ok && final(store).v_blocks() == old(
            store,
        ).v_blocks() && final(store).v_dir() == old(store).v_dir(),
        (index.v_layers().len() == 0 || forall|p: int|
            0 <= p < index.v_layers().last().len() ==> old(store).lookup(
                (#[trigger] index.v_layers().last()[p]).id,
            ) is Some) ==> r is Ok,
        r is Ok && index.v_layers().len() > 0 ==> exists|vs: Seq<EmbeddingView>|
            {
                let bottom = index.v_layers().last();
                &&& final(store).v_blocks() == #[trigger] chunked(vs)
                &&& final(store).v_dir() == chunk_dir(vs)
                &&& (forall|p: int, q: int|
                    0 <= p < q < vs.len() ==> (#[trigger] vs[p]).id != (#[trigger] vs[q]).id)
                &&& (forall|k: int|
                    0 <= k < vs.len() ==> neighbors_of(bottom, (#[trigger] vs[k]).id) is Some)
                &&& (forall|p: int|
                    0 <= p < bottom.len() ==> exists|k: int|
                        0 <= k < vs.len() && (#[trigger] vs[k]).id == (#[trigger] bottom[p]).id)
                &&& (forall|k: int|
                    0 <= k < vs.len() ==> match old(store).lookup((#[trigger] vs[k]).id) {
                        Some(e0) => vs[k] == refreshed(e0, ledger_view(ledger@)),
                        None => false,
                    })
            },
{
    let bottom = match index.get_last_layer() {
        None => {
            return Ok(());
        },
        Some(l) => l,
    };
    let ghost bv = index.v_layers().last();
    proof {
        assert(bottom@ == bv);
    }

    // depth-first visit order over the bottom layer, every node once
    let mut order: Vec<u64> = Vec::new();
    let mut s: usize = 0;
    while s < bottom.nodes.len()
        invariant
            s <= bottom@.len(),
            bv == bottom@,
            forall|p: int, q: int| 0 <= p < q < order@.len() ==> order@[p] != order@[q],
            forall|k: int|
                0 <= k < order@.len() ==> neighbors_of(bv, #[trigger] order@[k]) is Some,
            forall|t: int| 0 <= t < s ==> order@.contains((#[trigger] bottom@[t]).id),
        decreases bottom@.len() - s,
    {
        let sid = bottom.nodes[s].id;
        if !id_in(&order, sid) {
            match bottom.get(sid) {
                Some(first_edges) => {
                    let ghost o0 = order@;
                    order.push(sid);
                    proof {
                        assert(forall|k: int| 0 <= k < o0.len() ==> order@[k] == o0[k]);
                        assert(order@.last() == sid);
                        assert(neighbors_of(bv, sid) is Some);
                    }
                    // expand the component, closest neighbor first
                    let mut stack: Vec<u64> = Vec::new();
                    let sorted = sort_edges(&first_edges);
                    let mut x: usize = sorted.len();
                    while x > 0
                        invariant
                            x <= sorted@.len(),
                        decreases x,
                    {
                        x = x - 1;
                        stack.push(sorted[x].0);
                    }
                    let mut fuel: usize = 1;
                    let mut t: usize = 0;
                    while t < bottom.nodes.len()
                        invariant
                            fuel >= 1,
                        decreases bottom.nodes@.len() - t,
                    {
                        let extra = bottom.nodes[t].neighbors.len();
                        if fuel <= usize::MAX - extra {
                            fuel = fuel + extra;
                        }
                        if fuel < usize::MAX {
                            fuel = fuel + 1;
                        }
                        t = t + 1;
                    }
                    while fuel > 0 && stack.len() > 0
                        invariant
                            bv == bottom@,
                            forall|p: int, q: int|
                                0 <= p < q < order@.len() ==> order@[p] != order@[q],
                            forall|k: int|
                                0 <= k < order@.len() ==> neighbors_of(
                                    bv,
                                    #[trigger] order@[k],
                                ) is Some,
                            forall|t2: int|
                                0 <= t2 < s ==> order@.contains((#[trigger] bottom@[t2]).id),
                            order@.contains(sid),
                        decreases fuel,
                    {
                        fuel = fuel - 1;
                        let cur = match stack.pop() {
                            Some(x) => x,
                            None => 0,
                        };
                        if !id_in(&order, cur) {
                            match bottom.get(cur) {
                                Some(edges) => {
                                    let ghost o1 = order@;
                                    order.push(cur);
                                    proof {
                                        assert(forall|k: int|
                                            0 <= k < o1.len() ==> order@[k] == o1[k]);
                                        assert forall|t2: int| 0 <= t2 < s implies order@.contains(
                                            (#[trigger] bottom@[t2]).id,
                                        ) by {
                                            let w = choose|w: int|
                                                0 <= w < o1.len() && o1[w] == bottom@[t2].id;
                                            assert(order@[w] == bottom@[t2].id);
                                        }
                                        assert(order@.contains(sid)) by {
                                            let w = choose|w: int|
                                                0 <= w < o1.len() && o1[w] == sid;
                                            assert(order@[w] == sid);
                                        }
                                    }
                                    let sorted2 = sort_edges(&edges);
                                    let mut x2: usize = sorted2.len();
                                    while x2 > 0
                                        invariant
                                            x2 <= sorted2@.len(),
                                        decreases x2,
                                    {
                                        x2 = x2 - 1;
                                        if !id_in(&order, sorted2[x2].0) {
                                            stack.push(sorted2[x2].0);
                                        }
                                    }
                                },
                                None => {
                                    // a dangling edge: not a node of this layer
                                },
                            }
                        }
                    }
                    proof {
                        assert(order@.contains(bottom@[s as int].id));
                    }
                },
                None => {
                    proof {
                        // every listed node is a key of the layer
                        crate::hnsw::lemma_neighbors_first(bv, s as int);
                        assert(false);
                    }
                },
            }
        }
        s = s + 1;
    }

    // fetch in visit order, refreshing metadata from the ledger
    let mut fresh: Vec<Embedding> = Vec::new();
    let mut k: usize = 0;
    while k < order.len()
        invariant
            k <= order@.len(),
            cache.wf(),
            cache.coherent(store),
            store == old(store),
            fresh@.len() == k,
            forall|p: int, q: int| 0 <= p < q < order@.len() ==> order@[p] != order@[q],
            forall|j: int|
                0 <= j < order@.len() ==> neighbors_of(bv, #[trigger] order@[j]) is Some,
            forall|j: int| 0 <= j < k ==> (#[trigger] embs_view(fresh@)[j]).id == order@[j],
            forall|j: int|
                0 <= j < k ==> match store.lookup(#[trigger] order@[j]) {
                    Some(e0) => embs_view(fresh@)[j] == refreshed(e0, ledger_view(ledger@)),
                    None => false,
                },
            embs_wf(embs_view(fresh@)),
        decreases order@.len() - k,
    {
        let id = order[k];
        let mut e = match cache.get(store, id) {
            Ok(e) => e,
            Err(er) => {
                proof {
                    // under the success hypothesis every bottom-layer node
                    // resolves, and the visit order holds only such nodes
                    if forall|p: int|
                        0 <= p < bv.len() ==> store.lookup((#[trigger] bv[p]).id) is Some {
                        assert(neighbors_of(bv, id) is Some);
                        crate::hnsw::lemma_neighbors_some_member(bv, id);
                        let pw = choose|p: int| 0 <= p < bv.len() && (#[trigger] bv[p]).id == id;
                        assert(store.lookup(bv[pw].id) is Some);
                        assert(false);
                    }
                }
                return Err(er);
            },
        };
        proof {
            crate::store::lemma_lookup_wf(store, id);
        }
        match ledger_lookup(ledger, e.source_file.filepath.as_str()) {
            Some(m) => {
                e.source_file.meta = m;
            },
            None => {},
        }
        let ghost f0 = embs_view(fresh@);
        proof {
            assert(e@ == refreshed(store.lookup(id)->Some_0, ledger_view(ledger@)));
            assert(e@.id == id);
        }
        fresh.push(e);
        proof {
            assert(embs_view(fresh@) =~= f0.push(fresh@.last()@));
            assert(forall|j: int| 0 <= j < k ==> #[trigger] embs_view(fresh@)[j] == f0[j]);
        }
        k = k + 1;
    }

    store.rewrite_blocks(&fresh);
    proof {
        let vs = embs_view(fresh@);
        assert forall|p: int, q: int| 0 <= p < q < vs.len() implies (#[trigger] vs[p]).id != (
        #[trigger] vs[q]).id by {
            assert(vs[p].id == order@[p]);
            assert(vs[q].id == order@[q]);
        }
        assert forall|p: int| 0 <= p < bv.len() implies exists|k2: int|
            0 <= k2 < vs.len() && (#[trigger] vs[k2]).id == (#[trigger] bv[p]).id by {
            assert(order@.contains(bv[p].id));
            let w = choose|w: int| 0 <= w < order@.len() && order@[w] == bv[p].id;
            assert(vs[w].id == bv[p].id);
        }
    }
    Ok(())
}

/// Copy of an edge list in ascending (distance, id) order.
fn sort_edges(edges: &Vec<(u64, i64)>) -> (r: Vec<(u64, i64)>)
    ensures
        r@.len() == edges@.len(),
{
    let mut rest = crate::hnsw::copy_edges(edges);
    let mut out: Vec<(u64, i64)> = Vec::new();
    while rest.len() > 0
        invariant
            out@.len() + rest@.len() == edges@.len(),
        decreases rest@.len(),
    {
        let mut m: usize = 0;
        let mut i: usize = 1;
        while i < rest.len()
            invariant
                m < rest@.len(),
                i <= rest@.len(),
                rest@.len() >= 1,
            decreases rest@.len() - i,
        {
            let a = rest[i];
            let b = rest[m];
            if a.1 < b.1 || (a.1 == b.1 && a.0 < b.0) {
                m = i;
            }
            i = i + 1;
        }
        let picked = rest.remove(m);
        out.push(picked);
    }
    out
}

/// The embeddings of a block that do not belong to the given file.
pub open spec fn without_file(es: Seq<EmbeddingView>, fp: Seq<char>) -> Seq<EmbeddingView>
    decreases es.len(),
{
    if es.len() == 0 {
        Seq::empty()
    } else {
        let rest = without_file(es.drop_last(), fp);
        if es.last().source_file.filepath == fp {
            rest
        } else {
            rest.push(es.last())
        }
    }
}

/// The ids of a block's embeddings that belong to the given file.
pub open spec fn removed_for_file(es: Seq<EmbeddingView>, fp: Seq<char>) -> Seq<u64>
    decreases es.len(),
{
    if es.len() == 0 {
        Seq::empty()
    } else {
        let rest = removed_for_file(es.drop_last(), fp);
        if es.last().source_file.filepath == fp {
            rest.push(es.last().id)
        } else {
            rest
        }
    }
}

/// Replace one file's embeddings inside its block.
///
/// The block the directory assigns to `filepath` loses every embedding of
/// that file and gains the given replacements, each stamped with a fresh
/// consecutive id; the nodes of the removed embeddings are erased from
/// the index (as long as its node count covers them).  A filepath the
/// directory does not list is deliberately a no-op: callers may invoke
/// this speculatively.  The directory itself is not rewritten; the next
/// reblock pass repairs it.  A replacement batch that would overflow the
/// block is refused.
pub fn update_file_embeddings(
    store: &mut BlockStore,
    index: &mut HNSW,
    filepath: &str,
    replacements: &Vec<Embedding>,
) -> (r: Result<(), StoreError>)
    requires
        old(store).wf(),
        old(index).wf(),
        embs_wf(embs_view(replacements@)),
        old(store).id_counter + replacements@.len() <= u64::MAX,
    ensures
        final(store).wf(),
        final(index).wf(),
        final(store).v_dir() == old(store).v_dir(),
        match crate::directory::block_of_file(old(store).v_dir(), filepath@) {
            None => r is Ok && *final(store) == *old(store) && *final(index) == *old(index),
            Some(b) => match crate::store::find_block(old(store).v_blocks(), b) {
                None => r == Err::<(), StoreError>(StoreError::NotFound) && *final(store)
                    == *old(store) && *final(index) == *old(index),
                Some(es) => {
                    let newes = without_file(es, filepath@) + crate::store::stamped(
                        embs_view(replacements@),
                        old(store).id_counter,
                    );
                    let removed = removed_for_file(es, filepath@);
                    &&& final(store).id_counter == old(store).id_counter + replacements@.len()
                    &&& (newes.len() > BLOCK_SIZE ==> r == Err::<(), StoreError>(
                        StoreError::InvalidArgument,
                    ) && final(store).v_blocks() == old(store).v_blocks() && *final(index)
                        == *old(index))
                    &&& (newes.len() <= BLOCK_SIZE ==> {
                        &&& r is Ok
                        &&& crate::store::find_block(final(store).v_blocks(), b) == Some(newes)
                        &&& forall|m: u64|
                            m != b ==> #[trigger] crate::store::find_block(
                                final(store).v_blocks(),
                                m,
                            ) == crate::store::find_block(old(store).v_blocks(), m)
                        &&& (old(index).size as int >= removed.len() ==> {
                            &&& final(index).v_layers().len() == old(index).v_layers().len()
                            &&& forall|li: int, rk: int|
                                0 <= li < final(index).v_layers().len() && 0 <= rk < removed.len()
                                    ==> neighbors_of(
                                    #[trigger] final(index).v_layers()[li],
                                    #[trigger] removed[rk],
                                ) is None
                            &&& forall|li: int, rk: int, src: u64, dd: i64|
                                0 <= li < final(index).v_layers().len() && 0 <= rk < removed.len()
                                    ==> !#[trigger] crate::hnsw::has_edge(
                                    final(index).v_layers()[li],
                                    src,
                                    removed[rk],
                                    dd,
                                )
                        })
                    })
                },
            },
        },
{
    let target_block = match store.directory.file_map(filepath) {
        Some(b) => b,
        None => {
            return Ok(());
        },
    };
    let block = match store.read_block(target_block) {
        Ok(b) => b,
        Err(e) => {
            return Err(e);
        },
    };
    proof {
        crate::store::lemma_find_block_wf(store.v_blocks(), target_block);
    }
    let ghost es = block@.embeddings;
    let ghost fp = filepath@;
    let ghost c0 = store.id_counter;

    // split the block: embeddings of other files stay, this file's leave
    let mut kept: Vec<Embedding> = Vec::new();
    let mut removed_ids: Vec<u64> = Vec::new();
    let mut i: usize = 0;
    proof {
        assert(embs_view(kept@) =~= without_file(es.take(0), fp));
        assert(removed_ids@ =~= removed_for_file(es.take(0), fp));
    }
    while i < block.embeddings.len()
        invariant
            i <= block.embeddings@.len(),
            es == block@.embeddings,
            embs_wf(es),
            embs_view(kept@) == without_file(es.take(i as int), fp),
            removed_ids@ == removed_for_file(es.take(i as int), fp),
            embs_wf(embs_view(kept@)),
        decreases block.embeddings@.len() - i,
    {
        proof {
            assert(embs_view(block.embeddings@)[i as int] == block.embeddings@[i as int]@);
            assert(es.take(i as int + 1).drop_last() =~= es.take(i as int));
            assert(es.take(i as int + 1).last() == es[i as int]);
        }
        if str_eq(block.embeddings[i].source_file.filepath.as_str(), filepath) {
            removed_ids.push(block.embeddings[i].id);
            proof {
                assert(removed_ids@ =~= removed_for_file(es.take(i as int + 1), fp));
            }
        } else {
            let ghost k0 = embs_view(kept@);
            kept.push(block.embeddings[i].duplicate());
            proof {
                assert(embs_view(kept@) =~= k0.push(kept@.last()@));
                assert(kept@.last()@ == es[i as int]);
                assert(embs_view(kept@) =~= without_file(es.take(i as int + 1), fp));
            }
        }
        i = i + 1;
    }
    proof {
        assert(es.take(es.len() as int) =~= es);
    }

    // append the replacements under fresh consecutive ids
    let ghost st = crate::store::stamped(embs_view(replacements@), c0);
    let mut j: usize = 0;
    proof {
        assert(embs_view(kept@) + st.take(0) =~= embs_view(kept@));
    }
    let ghost base = embs_view(kept@);
    while j < replacements.len()
        invariant
            j <= replacements@.len(),
            store.wf(),
            store.v_blocks() == old(store).v_blocks(),
            store.v_dir() == old(store).v_dir(),
            store.id_counter == c0 + j,
            c0 == old(store).id_counter,
            c0 + replacements@.len() <= u64::MAX,
            st == crate::store::stamped(embs_view(replacements@), c0),
            embs_wf(embs_view(replacements@)),
            embs_view(kept@) == base + st.take(j as int),
            embs_wf(embs_view(kept@)),
        decreases replacements@.len() - j,
    {
        let mut e = replacements[j].duplicate();
        e.id = store.next_id();
        let ghost k0 = embs_view(kept@);
        proof {
            assert(embs_view(replacements@)[j as int] == replacements@[j as int]@);
            assert(e@ == st[j as int]);
        }
        kept.push(e);
        proof {
            assert(embs_view(kept@) =~= k0.push(kept@.last()@));
            assert(st.take(j as int + 1).drop_last() =~= st.take(j as int));
            assert(embs_view(kept@) =~= base + st.take(j as int + 1));
        }
        j = j + 1;
    }
    proof {
        assert(st.take(st.len() as int) =~= st);
        assert(embs_view(kept@) == base + st);
    }

    if kept.len() > BLOCK_SIZE {
        return Err(StoreError::InvalidArgument);
    }
    store.write_block(crate::store::EmbeddingBlock { block: target_block, embeddings: kept });

    // erase the replaced nodes from the index
    let ghost removed = removed_for_file(es, fp);
    proof {
        assert(removed_ids@ == removed);
    }
    let ghost covered = old(index).size as int >= removed.len();
    let mut d: usize = 0;
    while d < removed_ids.len()
        invariant
            d <= removed_ids@.len(),
            removed_ids@ == removed,
            index.wf(),
            covered == (old(index).size as int >= removed.len()),
            covered ==> {
                &&& index.size as int == old(index).size - d
                &&& index.v_layers().len() == old(index).v_layers().len()
                &&& forall|li: int, rk: int|
                    0 <= li < index.v_layers().len() && 0 <= rk < d ==> neighbors_of(
                        #[trigger] index.v_layers()[li],
                        #[trigger] removed[rk],
                    ) is None
                &&& forall|li: int, rk: int, src: u64, dd: i64|
                    0 <= li < index.v_layers().len() && 0 <= rk < d
                        ==> !#[trigger] crate::hnsw::has_edge(
                        index.v_layers()[li],
                        src,
                        removed[rk],
                        dd,
                    )
            },
        decreases removed_ids@.len() - d,
    {
        let ghost pre_layers = index.v_layers();
        let target = removed_ids[d];
        if index.size >= 1 {
            index.remove_node(target);
            proof {
                if covered {
                    assert forall|li: int, rk: int|
                        0 <= li < index.v_layers().len() && 0 <= rk < d + 1 implies neighbors_of(
                        #[trigger] index.v_layers()[li],
                        #[trigger] removed[rk],
                    ) is None by {
                        if removed[rk] == target {
                            assert(neighbors_of(index.v_layers()[li], target) is None);
                        } else {
                            assert(rk < d);
                            assert(neighbors_of(pre_layers[li], removed[rk]) is None);
                            assert(neighbors_of(index.v_layers()[li], removed[rk]) == (
                            match neighbors_of(pre_layers[li], removed[rk]) {
                                Some(ns) => Some(crate::hnsw::edges_without(ns, target)),
                                None => None::<Seq<(u64, i64)>>,
                            }));
                        }
                    }
                    assert forall|li: int, rk: int, src: u64, dd: i64|
                        0 <= li < index.v_layers().len() && 0 <= rk < d + 1
                            implies !#[trigger] crate::hnsw::has_edge(
                        index.v_layers()[li],
                        src,
                        removed[rk],
                        dd,
                    ) by {
                        if removed[rk] == target {
                            assert(!crate::hnsw::has_edge(
                                index.v_layers()[li],
                                src,
                                target,
                                dd,
                            ));
                        } else {
                            assert(rk < d);
                            if src == target {
                                assert(neighbors_of(index.v_layers()[li], target) is None);
                            } else {
                                match neighbors_of(pre_layers[li], src) {
                                    Some(ns) => {
                                        assert(neighbors_of(index.v_layers()[li], src) == Some(
                                            crate::hnsw::edges_without(ns, target),
                                        ));
                                        assert forall|jj: int|
                                            0 <= jj < ns.len() implies (#[trigger] ns[jj]).0
                                                != removed[rk] by {
                                            if ns[jj].0 == removed[rk] {
                                                assert(crate::hnsw::has_edge(
                                                    pre_layers[li],
                                                    src,
                                                    removed[rk],
                                                    ns[jj].1,
                                                ));
                                            }
                                        }
                                        crate::hnsw::lemma_edges_without_free(
                                            ns,
                                            target,
                                            removed[rk],
                                        );
                                    },
                                    None => {
                                        assert(neighbors_of(index.v_layers()[li], src)
                                            is None);
                                    },
                                }
                            }
                        }
                    }
                }
            }
        } else {
            proof {
                if covered {
                    assert(false);
                }
            }
        }
        d = d + 1;
    }
    Ok(())
}

} // verus!
