//! Index-level behavior: build and query, filters, removal, graph
//! symmetry, persistence and the cache.

use dewey::cache::EmbeddingCache;
use dewey::embedding::{normalize, Embedding, EmbeddingSource};
use dewey::error::StoreError;
use dewey::hnsw::{Filter, Query, HNSW};
use dewey::outside::rng_from_seed;
use dewey::reblock::{reblock, LedgerEntry};
use dewey::store::BlockStore;
use dewey::{BLOCK_SIZE, SCALE, SCALE_SQ};

fn emb(data: Vec<i64>, path: &str, tags: Vec<&str>) -> Embedding {
    Embedding {
        id: 0,
        data,
        source_file: EmbeddingSource {
            filepath: path.to_string(),
            meta: tags.into_iter().map(|t| t.to_string()).collect(),
            subset: None,
        },
    }
}

fn unit(frac: &[f64]) -> Vec<i64> {
    frac.iter().map(|x| (x * SCALE as f64) as i64).collect()
}

fn lcg(state: &mut u64) -> u64 {
    *state = state.wrapping_mul(6364136223846793005).wrapping_add(1442695040888963407);
    *state >> 33
}

/// Three pre-normalized embeddings, ingested and indexed.
fn small_corpus(tags: [Vec<&str>; 3]) -> (BlockStore, EmbeddingCache, HNSW, [u64; 3]) {
    let mut store = BlockStore::empty(0);
    let [ta, tb, tc] = tags;
    let mut a = emb(unit(&[1.0, 0.0, 0.0, 0.0]), "a.txt", ta);
    let mut b = emb(unit(&[0.9, 0.1, 0.0, 0.0]), "b.txt", tb);
    let mut c = emb(unit(&[0.0, 1.0, 0.0, 0.0]), "c.txt", tc);
    let ia = store.add_new_embedding(&mut a);
    let ib = store.add_new_embedding(&mut b);
    let ic = store.add_new_embedding(&mut c);
    let mut cache = EmbeddingCache::new(10 * BLOCK_SIZE);
    let mut rng = rng_from_seed(7);
    let index = HNSW::new(true, None, &store, &mut cache, &mut rng, 4).unwrap();
    (store, cache, index, [ia, ib, ic])
}

fn dist_f(d: i64) -> f64 {
    d as f64 / SCALE_SQ as f64
}

#[test]
fn build_and_query() {
    let (store, mut cache, index, [ia, ib, _]) = small_corpus([vec![], vec![], vec![]]);
    let q = Query { embedding: emb(unit(&[1.0, 0.0, 0.0, 0.0]), "q", vec![]), filters: vec![] };
    let hits = index.query(&mut cache, &store, &q, 2, 10).unwrap();
    assert_eq!(hits.len(), 2);
    assert_eq!(hits[0].0.id, ia);
    assert_eq!(hits[1].0.id, ib);
    assert!(dist_f(hits[0].1).abs() < 1e-5);
    assert!((dist_f(hits[1].1) - 0.1).abs() < 1e-5);
}

#[test]
fn filter_exclusion() {
    let (store, mut cache, index, [ia, _, ic]) =
        small_corpus([vec!["lang:en"], vec!["lang:fr"], vec!["lang:en"]]);
    let f = Filter::from_string(&"eq lang:en".to_string()).unwrap();
    let q = Query {
        embedding: emb(unit(&[1.0, 0.0, 0.0, 0.0]), "q", vec![]),
        filters: vec![f],
    };
    let hits = index.query(&mut cache, &store, &q, 2, 10).unwrap();
    let ids: Vec<u64> = hits.iter().map(|h| h.0.id).collect();
    assert_eq!(ids, vec![ia, ic]);
    // every hit satisfies every filter against every tag
    for h in hits.iter() {
        for tag in h.0.source_file.meta.iter() {
            assert_eq!(tag, "lang:en");
        }
    }
}

#[test]
fn remove_then_query() {
    let (store, mut cache, mut index, [ia, ib, ic]) = small_corpus([vec![], vec![], vec![]]);
    index.remove_node(ib);
    // no layer references the removed node, as a key or as a neighbor
    for layer in index.layers.iter() {
        for node in layer.nodes.iter() {
            assert_ne!(node.id, ib);
            for &(n, _) in node.neighbors.iter() {
                assert_ne!(n, ib);
            }
        }
    }
    let q = Query { embedding: emb(unit(&[1.0, 0.0, 0.0, 0.0]), "q", vec![]), filters: vec![] };
    let hits = index.query(&mut cache, &store, &q, 2, 10).unwrap();
    let ids: Vec<u64> = hits.iter().map(|h| h.0.id).collect();
    assert_eq!(ids, vec![ia, ic]);
}

#[test]
fn graph_symmetry_after_inserts() {
    let (_, _, index, _) = small_corpus([vec![], vec![], vec![]]);
    for layer in index.layers.iter() {
        for node in layer.nodes.iter() {
            for &(n, d) in node.neighbors.iter() {
                let back = layer
                    .nodes
                    .iter()
                    .find(|m| m.id == n)
                    .expect("neighbor must be a node");
                assert!(
                    back.neighbors.iter().any(|&(m, dm)| m == node.id && dm == d),
                    "missing back-edge"
                );
            }
        }
    }
}

#[test]
fn query_rejects_small_ef() {
    let (store, mut cache, index, _) = small_corpus([vec![], vec![], vec![]]);
    let q = Query { embedding: emb(unit(&[1.0, 0.0, 0.0, 0.0]), "q", vec![]), filters: vec![] };
    match index.query(&mut cache, &store, &q, 5, 2) {
        Err(StoreError::InvalidArgument) => {}
        other => panic!("unexpected: {:?}", other.map(|v| v.len())),
    }
}

#[test]
fn empty_index_returns_nothing() {
    let store = BlockStore::empty(0);
    let mut cache = EmbeddingCache::new(64);
    let index = HNSW::empty();
    let q = Query { embedding: emb(unit(&[1.0, 0.0, 0.0, 0.0]), "q", vec![]), filters: vec![] };
    let hits = index.query(&mut cache, &store, &q, 2, 10).unwrap();
    assert_eq!(hits.len(), 0);
    // emptiness is decided before the ef/k argument check
    let q2 = Query { embedding: emb(unit(&[1.0, 0.0, 0.0, 0.0]), "q", vec![]), filters: vec![] };
    let hits2 = index.query(&mut cache, &store, &q2, 5, 2).unwrap();
    assert_eq!(hits2.len(), 0);
}

#[test]
fn cache_missing_id() {
    let store = BlockStore::empty(0);
    let mut cache = EmbeddingCache::new(64);
    match cache.get(&store, 17) {
        Err(StoreError::Missing) => {}
        other => panic!("unexpected: {:?}", other.map(|e| e.id)),
    }
}

#[test]
fn cache_read_through_matches_store() {
    // capacity two blocks, corpus four blocks; every returned embedding
    // must equal the stored value, across many accesses and evictions
    let mut store = BlockStore::empty(0);
    let mut batch = Vec::new();
    let mut state = 3u64;
    let corpus = 4 * 2 * BLOCK_SIZE;
    for k in 0..corpus {
        let raw: Vec<i64> = (0..4).map(|_| (lcg(&mut state) % 100000) as i64 + 1).collect();
        let mut e = emb(raw, &format!("c-{}", k), vec![]);
        normalize(&mut e);
        batch.push(e);
    }
    store.sync_index(&batch);
    let mut cache = EmbeddingCache::new(2 * BLOCK_SIZE);
    // ten times the capacity in accesses, drawn from a window that
    // drifts across the whole corpus
    let accesses = 10 * 2 * BLOCK_SIZE;
    for t in 0..accesses {
        let window = (t * corpus / accesses) as u64;
        let id = 1 + (window + (lcg(&mut state) % 64)) % corpus as u64;
        let got = cache.get(&store, id).unwrap();
        assert_eq!(got.id, id);
        // re-read directly from the store for comparison
        let entry = store.directory.entries.iter().find(|d| d.id == id).unwrap();
        let blk = store.blocks.iter().find(|b| b.block == entry.block).unwrap();
        let on_disk = blk.embeddings.iter().find(|e| e.id == id).unwrap();
        assert_eq!(got.data, on_disk.data);
        assert_eq!(got.source_file.filepath, on_disk.source_file.filepath);
        assert!(cache.len() <= 2 * BLOCK_SIZE);
    }
}

#[test]
fn index_codec_round_trip() {
    let (_, _, index, _) = small_corpus([vec![], vec![], vec![]]);
    let bytes = index.serialize();
    let back = HNSW::deserialize(&bytes).unwrap();
    assert_eq!(back.size, index.size);
    assert_eq!(back.entry_id, index.entry_id);
    assert_eq!(back.thresholds, index.thresholds);
    assert_eq!(back.layers.len(), index.layers.len());
    for (x, y) in back.layers.iter().zip(index.layers.iter()) {
        assert_eq!(x.nodes.len(), y.nodes.len());
        for (nx, ny) in x.nodes.iter().zip(y.nodes.iter()) {
            assert_eq!(nx.id, ny.id);
            assert_eq!(nx.neighbors, ny.neighbors);
        }
    }
    // corrupt payloads are refused
    assert!(HNSW::deserialize(&vec![0, 1, 2]).is_err());
    let mut wrong = bytes.clone();
    wrong[0] ^= 0x55;
    assert!(HNSW::deserialize(&wrong).is_err());
}

#[test]
fn reblock_small_corpus_preserves_set() {
    let (mut store, mut cache, index, ids) = small_corpus([vec![], vec![], vec![]]);
    let pre: Vec<u64> = ids.to_vec();
    let ledger = vec![LedgerEntry {
        filepath: "a.txt".to_string(),
        meta: vec!["fresh".to_string()],
    }];
    reblock(&mut store, &index, &mut cache, &ledger).unwrap();
    let mut post: Vec<u64> = store
        .blocks
        .iter()
        .flat_map(|b| b.embeddings.iter().map(|e| e.id))
        .collect();
    post.sort();
    let mut want = pre.clone();
    want.sort();
    assert_eq!(post, want);
    // metadata was refreshed from the ledger
    let a = store
        .blocks
        .iter()
        .flat_map(|b| b.embeddings.iter())
        .find(|e| e.source_file.filepath == "a.txt")
        .unwrap();
    assert_eq!(a.source_file.meta, vec!["fresh"]);
}

#[test]
fn reblock_matches_bottom_layer() {
    // a larger corpus: every node joins the bottom layer, so the
    // rewritten blocks hold exactly the ingested ids, within the
    // block-size bound, with a consistent directory
    let mut store = BlockStore::empty(0);
    let mut batch = Vec::new();
    let mut state = 17u64;
    for k in 0..120 {
        let raw: Vec<i64> = (0..4).map(|_| (lcg(&mut state) % 100000) as i64 + 1).collect();
        let mut e = emb(raw, &format!("r-{}", k), vec![]);
        normalize(&mut e);
        batch.push(e);
    }
    store.sync_index(&batch);
    let mut cache = EmbeddingCache::new(10 * BLOCK_SIZE);
    let mut rng = rng_from_seed(99);
    let index = HNSW::new(true, None, &store, &mut cache, &mut rng, 4).unwrap();
    let bottom: Vec<u64> = match index.layers.last() {
        Some(l) => l.nodes.iter().map(|n| n.id).collect(),
        None => vec![],
    };
    // the bottom layer lists every ingested id
    let mut all: Vec<u64> = store.directory.entries.iter().map(|d| d.id).collect();
    let mut want = bottom.clone();
    all.sort();
    want.sort();
    assert_eq!(want, all);
    reblock(&mut store, &index, &mut cache, &Vec::new()).unwrap();
    let mut post: Vec<u64> = store
        .blocks
        .iter()
        .flat_map(|b| b.embeddings.iter().map(|e| e.id))
        .collect();
    post.sort();
    assert_eq!(post, want);
    for b in store.blocks.iter() {
        assert!(b.embeddings.len() <= BLOCK_SIZE);
    }
    for entry in store.directory.entries.iter() {
        let blk = store.blocks.iter().find(|b| b.block == entry.block).unwrap();
        assert!(blk
            .embeddings
            .iter()
            .any(|e| e.id == entry.id && e.source_file.filepath == entry.filepath));
    }
}

#[test]
fn update_file_embeddings_replaces_in_block() {
    let (mut store, _, mut index, [_, ib, _]) = small_corpus([vec![], vec![], vec![]]);
    let mut replacement = emb(unit(&[0.0, 0.0, 1.0, 0.0]), "b.txt", vec![]);
    normalize(&mut replacement);
    let before_counter = store.id_counter;
    dewey::reblock::update_file_embeddings(&mut store, &mut index, "b.txt", &vec![replacement])
        .unwrap();
    assert_eq!(store.id_counter, before_counter + 1);
    let blk = &store.blocks[0];
    assert!(blk.embeddings.iter().all(|e| e.id != ib));
    assert!(blk
        .embeddings
        .iter()
        .any(|e| e.source_file.filepath == "b.txt" && e.id == before_counter + 1));
    // an unknown filepath is a deliberate no-op
    dewey::reblock::update_file_embeddings(&mut store, &mut index, "zzz", &Vec::new()).unwrap();
}
