//! Store-level behavior: id allocation, block layout, directory text,
//! the block codec and normalization on load.

use dewey::directory::{parse_directory, render_directory, Directory, DirectoryEntry};
use dewey::embedding::{normalize, Embedding, EmbeddingSource};
use dewey::error::StoreError;
use dewey::store::{parse_id_counter, BlockStore, EmbeddingBlock};
use dewey::{BLOCK_SIZE, SCALE};

fn emb(id: u64, data: Vec<i64>, path: &str, tags: Vec<&str>) -> Embedding {
    Embedding {
        id,
        data,
        source_file: EmbeddingSource {
            filepath: path.to_string(),
            meta: tags.into_iter().map(|t| t.to_string()).collect(),
            subset: None,
        },
    }
}

fn unit(frac: &[f64]) -> Vec<i64> {
    frac.iter().map(|x| (x * SCALE as f64) as i64).collect()
}

/// A tiny deterministic generator for test vectors.
fn lcg(state: &mut u64) -> u64 {
    *state = state.wrapping_mul(6364136223846793005).wrapping_add(1442695040888963407);
    *state >> 33
}

#[test]
fn next_id_strictly_increasing() {
    let mut store = BlockStore::empty(0);
    let mut last = 0;
    for _ in 0..100 {
        let id = store.next_id();
        assert_eq!(id, last + 1);
        assert!(id > last);
        last = id;
    }
    let mut store2 = BlockStore::empty(41);
    assert_eq!(store2.next_id(), 42);
}

#[test]
fn id_counter_text() {
    assert_eq!(parse_id_counter(""), Ok(0));
    assert_eq!(parse_id_counter("42"), Ok(42));
    assert_eq!(parse_id_counter("18446744073709551615"), Ok(u64::MAX));
    assert_eq!(parse_id_counter("18446744073709551616"), Err(StoreError::Corrupt));
    assert_eq!(parse_id_counter("4x2"), Err(StoreError::Corrupt));
    assert_eq!(dewey::text::render_u64_string(907), "907".to_string());
    assert_eq!(dewey::text::render_u64_string(0), "0".to_string());
}

#[test]
fn directory_round_trip() {
    let d = Directory {
        entries: vec![
            DirectoryEntry { id: 1, filepath: "a/b.txt".to_string(), block: 0 },
            DirectoryEntry { id: 2, filepath: "c.txt".to_string(), block: 0 },
            DirectoryEntry { id: 3, filepath: "d/e/f.rs".to_string(), block: 1 },
        ],
    };
    let text = render_directory(&d);
    // the text is pinned exactly: lines joined by single newlines
    assert_eq!(text, "1 a/b.txt 0\n2 c.txt 0\n3 d/e/f.rs 1");
    let back = parse_directory(&text).unwrap();
    assert_eq!(back.entries.len(), 3);
    for (x, y) in back.entries.iter().zip(d.entries.iter()) {
        assert_eq!(x.id, y.id);
        assert_eq!(x.filepath, y.filepath);
        assert_eq!(x.block, y.block);
    }
    // the documented legacy corner: spaces in a filepath are parsed by
    // concatenating the middle fields
    let odd = parse_directory("7 has space.txt 3").unwrap();
    assert_eq!(odd.entries[0].id, 7);
    assert_eq!(odd.entries[0].filepath, "hasspace.txt");
    assert_eq!(odd.entries[0].block, 3);
    // malformed lines are corrupt
    assert!(parse_directory("nonsense").is_err());
    assert!(parse_directory("1 file.txt notanumber").is_err());
    // blank text is an empty directory
    assert_eq!(parse_directory("").unwrap().entries.len(), 0);
    assert_eq!(parse_directory("\n\n").unwrap().entries.len(), 0);
}

#[test]
fn read_block_not_found() {
    let store = BlockStore::empty(0);
    match store.read_block(5) {
        Err(StoreError::NotFound) => {}
        other => panic!("unexpected: {:?}", other),
    }
}

#[test]
fn block_boundary_ingest() {
    // BLOCK_SIZE + 1 embeddings through the single-insert path
    let mut store = BlockStore::empty(0);
    let mut state = 7u64;
    for _ in 0..BLOCK_SIZE + 1 {
        let raw: Vec<i64> = (0..4).map(|_| (lcg(&mut state) % 100000) as i64 + 1).collect();
        let mut e = emb(0, raw, "f", vec![]);
        normalize(&mut e);
        store.add_new_embedding(&mut e);
    }
    assert_eq!(store.blocks.len(), 2);
    assert_eq!(store.blocks[0].block, 0);
    assert_eq!(store.blocks[1].block, 1);
    assert_eq!(store.blocks[0].embeddings.len(), BLOCK_SIZE);
    assert_eq!(store.blocks[1].embeddings.len(), 1);
    assert_eq!(store.directory.entries.len(), BLOCK_SIZE + 1);
    // ids are contiguous from 1
    for (k, entry) in store.directory.entries.iter().enumerate() {
        assert_eq!(entry.id, k as u64 + 1);
    }
    assert_eq!(store.id_counter, (BLOCK_SIZE + 1) as u64);
}

#[test]
fn sync_layout_and_coherence() {
    let mut store = BlockStore::empty(0);
    let mut batch = Vec::new();
    let mut state = 11u64;
    for k in 0..BLOCK_SIZE + 5 {
        let raw: Vec<i64> = (0..4).map(|_| (lcg(&mut state) % 100000) as i64 + 1).collect();
        let mut e = emb(0, raw, &format!("file-{}", k), vec![]);
        normalize(&mut e);
        batch.push(e);
    }
    store.sync_index(&batch);
    // block sizes never exceed BLOCK_SIZE
    for b in store.blocks.iter() {
        assert!(b.embeddings.len() <= BLOCK_SIZE);
    }
    // directory/block coherence: every entry points at a block holding
    // that id and filepath, and every stored embedding has exactly one
    // directory line
    let mut total = 0;
    for entry in store.directory.entries.iter() {
        let blk = store.blocks.iter().find(|b| b.block == entry.block).unwrap();
        let found = blk
            .embeddings
            .iter()
            .find(|e| e.id == entry.id && e.source_file.filepath == entry.filepath);
        assert!(found.is_some());
    }
    for b in store.blocks.iter() {
        for e in b.embeddings.iter() {
            let refs: Vec<_> =
                store.directory.entries.iter().filter(|d| d.id == e.id).collect();
            assert_eq!(refs.len(), 1);
            assert_eq!(refs[0].block, b.block);
            total += 1;
        }
    }
    assert_eq!(total, store.directory.entries.len());
}

#[test]
fn normalization_on_load() {
    let mut store = BlockStore::empty(0);
    let mut batch = Vec::new();
    let mut state = 23u64;
    for k in 0..10 {
        let raw: Vec<i64> =
            (0..4).map(|_| (lcg(&mut state) % 1000000) as i64 + 1000).collect();
        let mut e = emb(0, raw, &format!("n-{}", k), vec![]);
        normalize(&mut e);
        batch.push(e);
    }
    store.sync_index(&batch);
    let all = store.get_all_blocks();
    assert_eq!(all.len(), 10);
    for be in all.iter() {
        let norm: f64 = be
            .embedding
            .data
            .iter()
            .map(|&x| {
                let f = x as f64 / SCALE as f64;
                f * f
            })
            .sum::<f64>()
            .sqrt();
        assert!((norm - 1.0).abs() < 1e-5, "norm {} out of bounds", norm);
        assert_eq!(be.source_file, be.block_number.to_string());
    }
}

#[test]
fn block_codec_round_trip() {
    let block = EmbeddingBlock {
        block: 9,
        embeddings: vec![
            emb(1, unit(&[1.0, 0.0, 0.0, 0.0]), "alpha.txt", vec!["lang:en", "k:v"]),
            Embedding {
                id: 2,
                data: unit(&[0.0, -1.0, 0.0, 0.0]),
                source_file: EmbeddingSource {
                    filepath: "beta .tt".to_string(),
                    meta: vec![],
                    subset: Some((3, 99)),
                },
            },
        ],
    };
    let bytes = block.to_bytes();
    let (back, used) = EmbeddingBlock::from_bytes(&bytes).unwrap();
    assert_eq!(used, bytes.len());
    assert_eq!(back.block, 9);
    assert_eq!(back.embeddings.len(), 2);
    assert_eq!(back.embeddings[0].id, 1);
    assert_eq!(back.embeddings[0].data, block.embeddings[0].data);
    assert_eq!(back.embeddings[0].source_file.filepath, "alpha.txt");
    assert_eq!(back.embeddings[0].source_file.meta, vec!["lang:en", "k:v"]);
    assert_eq!(back.embeddings[1].source_file.filepath, "beta .tt");
    assert_eq!(back.embeddings[1].source_file.subset, Some((3, 99)));

    // corrupt payloads are refused
    assert!(EmbeddingBlock::from_bytes(&vec![1, 2, 3]).is_err());
    let mut wrong_tag = bytes.clone();
    wrong_tag[0] ^= 0xff;
    assert!(EmbeddingBlock::from_bytes(&wrong_tag).is_err());
}
