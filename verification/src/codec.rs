//! The codec: length-prefixed little-endian binary encoding of every
//! persisted structure.
//!
//! Every scalar is widened to one 64-bit little-endian word; sequences are
//! a count word followed by their elements; strings are a character count
//! followed by one word per character (the code point); options are a tag
//! word.  A decoder returns the value and the number of words consumed,
//! and refuses any payload whose top-level schema tag differs from its
//! own.
//!
//! Encoding and decoding are specified as total functions, and decoding
//! an encoding is proved to return exactly the encoded value.
//!
//! Widening every scalar and character to a full word trades compactness
//! for a uniform word stream: the layout is deliberately not
//! byte-compatible with packed native-width integers or UTF-8 strings.

use vstd::prelude::*;

use crate::embedding::{Embedding, EmbeddingSource, EmbeddingView, SourceView, strings_view};
use crate::error::StoreError;
use crate::hnsw::{layer_wf, layers_view, nodes_view, GraphNode, Layer, NodeV, HNSW};
use crate::outside::char_from_u32;
use crate::store::{embs_view, BlockV, EmbeddingBlock};
use crate::text::{string_from_chars, string_to_chars};

verus! {

/// Schema tag of an encoded block file.
pub const BLOCK_TAG: u64 = 0x626c6f636b;

/// Schema tag of an encoded index file.
pub const INDEX_TAG: u64 = 0x696e646578;

// ----- encoders (specification level) ---------------------------------

pub open spec fn enc_chars(s: Seq<char>) -> Seq<u64> {
    seq![s.len() as u64] + Seq::new(s.len(), |i: int| s[i] as u64)
}

pub open spec fn enc_data(d: Seq<i64>) -> Seq<u64> {
    seq![d.len() as u64] + Seq::new(d.len(), |i: int| d[i] as u64)
}

pub open spec fn enc_opt_pair(o: Option<(u64, u64)>) -> Seq<u64> {
    match o {
        None => seq![0u64],
        Some((a, b)) => seq![1u64, a, b],
    }
}

pub open spec fn enc_meta_items(m: Seq<Seq<char>>) -> Seq<u64>
    decreases m.len(),
{
    if m.len() == 0 {
        Seq::empty()
    } else {
        enc_meta_items(m.drop_last()) + enc_chars(m.last())
    }
}

pub open spec fn enc_meta(m: Seq<Seq<char>>) -> Seq<u64> {
    seq![m.len() as u64] + enc_meta_items(m)
}

pub open spec fn enc_source(s: SourceView) -> Seq<u64> {
    enc_chars(s.filepath) + enc_meta(s.meta) + enc_opt_pair(s.subset)
}

pub open spec fn enc_emb(e: EmbeddingView) -> Seq<u64> {
    seq![e.id] + enc_data(e.data) + enc_source(e.source_file)
}

pub open spec fn enc_emb_items(es: Seq<EmbeddingView>) -> Seq<u64>
    decreases es.len(),
{
    if es.len() == 0 {
        Seq::empty()
    } else {
        enc_emb_items(es.drop_last()) + enc_emb(es.last())
    }
}

pub open spec fn enc_embs(es: Seq<EmbeddingView>) -> Seq<u64> {
    seq![es.len() as u64] + enc_emb_items(es)
}

/// A whole block file: schema tag, block number, embeddings.
pub open spec fn enc_block(b: BlockV) -> Seq<u64> {
    seq![BLOCK_TAG, b.block] + enc_embs(b.embeddings)
}

pub open spec fn enc_edges(ns: Seq<(u64, i64)>) -> Seq<u64> {
    seq![ns.len() as u64] + Seq::new(2 * ns.len(), |i: int|
        if i % 2 == 0 {
            ns[i / 2].0
        } else {
            ns[i / 2].1 as u64
        })
}

pub open spec fn enc_node(nd: NodeV) -> Seq<u64> {
    seq![nd.id] + enc_edges(nd.neighbors)
}

pub open spec fn enc_node_items(l: Seq<NodeV>) -> Seq<u64>
    decreases l.len(),
{
    if l.len() == 0 {
        Seq::empty()
    } else {
        enc_node_items(l.drop_last()) + enc_node(l.last())
    }
}

pub open spec fn enc_layer(l: Seq<NodeV>) -> Seq<u64> {
    seq![l.len() as u64] + enc_node_items(l)
}

pub open spec fn enc_layer_items(ls: Seq<Seq<NodeV>>) -> Seq<u64>
    decreases ls.len(),
{
    if ls.len() == 0 {
        Seq::empty()
    } else {
        enc_layer_items(ls.drop_last()) + enc_layer(ls.last())
    }
}

pub open spec fn enc_opt_u64(o: Option<u64>) -> Seq<u64> {
    match o {
        None => seq![0u64],
        Some(v) => seq![1u64, v],
    }
}

pub open spec fn enc_words_list(ws: Seq<u64>) -> Seq<u64> {
    seq![ws.len() as u64] + ws
}

/// A whole index file: schema tag, node count, entry point, thresholds,
/// layers.
pub open spec fn enc_hnsw(h: &HNSW) -> Seq<u64> {
    seq![INDEX_TAG, h.size as u64] + enc_opt_u64(h.entry_id) + enc_words_list(h.thresholds@)
        + seq![h.v_layers().len() as u64] + enc_layer_items(h.v_layers())
}

// ----- decoders (specification level) ---------------------------------

/// A word usable as a sequence length.
pub open spec fn len_ok(w: u64) -> bool {
    w <= usize::MAX as u64
}

/// A word that is a valid character code point.
pub open spec fn char_ok(w: u64) -> bool {
    w < 0xD800 || (0xE000 <= w && w <= 0x10FFFF)
}

pub open spec fn dec_chars(ws: Seq<u64>, pos: int) -> Option<(Seq<char>, int)> {
    if pos < 0 || pos >= ws.len() || !len_ok(ws[pos]) {
        None
    } else {
        let n = ws[pos] as int;
        if pos + 1 + n > ws.len() {
            None
        } else if !(forall|i: int| 0 <= i < n ==> char_ok(#[trigger] ws[pos + 1 + i])) {
            None
        } else {
            Some((Seq::new(n as nat, |i: int| ws[pos + 1 + i] as char), pos + 1 + n))
        }
    }
}

pub open spec fn dec_data(ws: Seq<u64>, pos: int) -> Option<(Seq<i64>, int)> {
    if pos < 0 || pos >= ws.len() || !len_ok(ws[pos]) {
        None
    } else {
        let n = ws[pos] as int;
        if pos + 1 + n > ws.len() {
            None
        } else {
            Some((Seq::new(n as nat, |i: int| ws[pos + 1 + i] as i64), pos + 1 + n))
        }
    }
}

pub open spec fn dec_opt_pair(ws: Seq<u64>, pos: int) -> Option<(Option<(u64, u64)>, int)> {
    if pos < 0 || pos >= ws.len() {
        None
    } else if ws[pos] == 0 {
        Some((None, pos + 1))
    } else if ws[pos] == 1 && pos + 3 <= ws.len() {
        Some((Some((ws[pos + 1], ws[pos + 2])), pos + 3))
    } else {
        None
    }
}

pub open spec fn dec_meta_items(ws: Seq<u64>, pos: int, n: int) -> Option<(Seq<Seq<char>>, int)>
    decreases n,
{
    if n <= 0 {
        Some((Seq::empty(), pos))
    } else {
        match dec_meta_items(ws, pos, n - 1) {
            None => None,
            Some((init, p2)) => match dec_chars(ws, p2) {
                None => None,
                Some((s, p3)) => Some((init.push(s), p3)),
            },
        }
    }
}

pub open spec fn dec_meta(ws: Seq<u64>, pos: int) -> Option<(Seq<Seq<char>>, int)> {
    if pos < 0 || pos >= ws.len() || !len_ok(ws[pos]) {
        None
    } else {
        dec_meta_items(ws, pos + 1, ws[pos] as int)
    }
}

pub open spec fn dec_source(ws: Seq<u64>, pos: int) -> Option<(SourceView, int)> {
    match dec_chars(ws, pos) {
        None => None,
        Some((fp, p2)) => match dec_meta(ws, p2) {
            None => None,
            Some((m, p3)) => match dec_opt_pair(ws, p3) {
                None => None,
                Some((o, p4)) => Some((SourceView { filepath: fp, meta: m, subset: o }, p4)),
            },
        },
    }
}

pub open spec fn dec_emb(ws: Seq<u64>, pos: int) -> Option<(EmbeddingView, int)> {
    if pos < 0 || pos >= ws.len() {
        None
    } else {
        let id = ws[pos];
        match dec_data(ws, pos + 1) {
            None => None,
            Some((d, p2)) => match dec_source(ws, p2) {
                None => None,
                Some((s, p3)) => Some((EmbeddingView { id, data: d, source_file: s }, p3)),
            },
        }
    }
}

pub open spec fn dec_emb_items(ws: Seq<u64>, pos: int, n: int) -> Option<(Seq<EmbeddingView>, int)>
    decreases n,
{
    if n <= 0 {
        Some((Seq::empty(), pos))
    } else {
        match dec_emb_items(ws, pos, n - 1) {
            None => None,
            Some((init, p2)) => match dec_emb(ws, p2) {
                None => None,
                Some((e, p3)) => Some((init.push(e), p3)),
            },
        }
    }
}

pub open spec fn dec_embs(ws: Seq<u64>, pos: int) -> Option<(Seq<EmbeddingView>, int)> {
    if pos < 0 || pos >= ws.len() || !len_ok(ws[pos]) {
        None
    } else {
        dec_emb_items(ws, pos + 1, ws[pos] as int)
    }
}

pub open spec fn dec_block(ws: Seq<u64>, pos: int) -> Option<(BlockV, int)> {
    if pos < 0 || pos + 2 > ws.len() || ws[pos] != BLOCK_TAG {
        None
    } else {
        match dec_embs(ws, pos + 2) {
            None => None,
            Some((es, p2)) => Some((BlockV { block: ws[pos + 1], embeddings: es }, p2)),
        }
    }
}

pub open spec fn dec_edges(ws: Seq<u64>, pos: int) -> Option<(Seq<(u64, i64)>, int)> {
    if pos < 0 || pos >= ws.len() || !len_ok(ws[pos]) {
        None
    } else {
        let n = ws[pos] as int;
        if pos + 1 + 2 * n > ws.len() {
            None
        } else {
            Some(
                (
                    Seq::new(n as nat, |i: int| (ws[pos + 1 + 2 * i], ws[pos + 2 + 2 * i] as i64)),
                    pos + 1 + 2 * n,
                ),
            )
        }
    }
}

pub open spec fn dec_node(ws: Seq<u64>, pos: int) -> Option<(NodeV, int)> {
    if pos < 0 || pos >= ws.len() {
        None
    } else {
        match dec_edges(ws, pos + 1) {
            None => None,
            Some((es, p2)) => Some((NodeV { id: ws[pos], neighbors: es }, p2)),
        }
    }
}

pub open spec fn dec_node_items(ws: Seq<u64>, pos: int, n: int) -> Option<(Seq<NodeV>, int)>
    decreases n,
{
    if n <= 0 {
        Some((Seq::empty(), pos))
    } else {
        match dec_node_items(ws, pos, n - 1) {
            None => None,
            Some((init, p2)) => match dec_node(ws, p2) {
                None => None,
                Some((nd, p3)) => Some((init.push(nd), p3)),
            },
        }
    }
}

pub open spec fn dec_layer(ws: Seq<u64>, pos: int) -> Option<(Seq<NodeV>, int)> {
    if pos < 0 || pos >= ws.len() || !len_ok(ws[pos]) {
        None
    } else {
        dec_node_items(ws, pos + 1, ws[pos] as int)
    }
}

pub open spec fn dec_layer_items(ws: Seq<u64>, pos: int, n: int) -> Option<(Seq<Seq<NodeV>>, int)>
    decreases n,
{
    if n <= 0 {
        Some((Seq::empty(), pos))
    } else {
        match dec_layer_items(ws, pos, n - 1) {
            None => None,
            Some((init, p2)) => match dec_layer(ws, p2) {
                None => None,
                Some((l, p3)) => Some((init.push(l), p3)),
            },
        }
    }
}

pub open spec fn dec_opt_u64(ws: Seq<u64>, pos: int) -> Option<(Option<u64>, int)> {
    if pos < 0 || pos >= ws.len() {
        None
    } else if ws[pos] == 0 {
        Some((None, pos + 1))
    } else if ws[pos] == 1 && pos + 2 <= ws.len() {
        Some((Some(ws[pos + 1]), pos + 2))
    } else {
        None
    }
}

pub open spec fn dec_words_list(ws: Seq<u64>, pos: int) -> Option<(Seq<u64>, int)> {
    if pos < 0 || pos >= ws.len() || !len_ok(ws[pos]) {
        None
    } else {
        let n = ws[pos] as int;
        if pos + 1 + n > ws.len() {
            None
        } else {
            Some((ws.subrange(pos + 1, pos + 1 + n), pos + 1 + n))
        }
    }
}

/// The invariants a decoded index must satisfy to be accepted: unique
/// node ids per layer, and no nodes at all when there is no entry point.
pub open spec fn decoded_index_wf(entry: Option<u64>, ls: Seq<Seq<NodeV>>) -> bool {
    &&& forall|i: int| 0 <= i < ls.len() ==> layer_wf(#[trigger] ls[i])
    &&& (entry is None ==> forall|i: int| 0 <= i < ls.len() ==> (#[trigger] ls[i]).len() == 0)
}

/// The bytes decode to exactly this index's fields.
pub open spec fn index_decodes_to(bytes: Seq<u8>, h: &HNSW) -> bool {
    &&& bytes.len() % 8 == 0
    &&& match dec_hnsw(words_of_bytes(bytes), 0) {
        Some(((size, entry, ts, ls), _)) => h.size == size && h.entry_id == entry
            && h.thresholds@ == ts && h.v_layers() == ls,
        None => false,
    }
}

/// Exactly when decoding an index file fails: the bytes are not whole
/// words, no index parses at the start, or the decoded graph breaks the
/// index invariants.
pub open spec fn index_decode_fails(bytes: Seq<u8>) -> bool {
    ||| bytes.len() % 8 != 0
    ||| match dec_hnsw(words_of_bytes(bytes), 0) {
        Some(((size, entry, ts, ls), _)) => !decoded_index_wf(entry, ls),
        None => true,
    }
}

/// The decoded image of an index file: size, entry point, thresholds,
/// layers, and the number of words consumed.
pub open spec fn dec_hnsw(ws: Seq<u64>, pos: int) -> Option<
    ((u64, Option<u64>, Seq<u64>, Seq<Seq<NodeV>>), int),
> {
    if pos < 0 || pos + 2 > ws.len() || ws[pos] != INDEX_TAG || !len_ok(ws[pos + 1])
        || ws[pos + 1] > u32::MAX {
        None
    } else {
        match dec_opt_u64(ws, pos + 2) {
            None => None,
            Some((entry, p2)) => match dec_words_list(ws, p2) {
                None => None,
                Some((ts, p3)) => if p3 >= ws.len() || !len_ok(ws[p3]) {
                    None
                } else {
                    match dec_layer_items(ws, p3 + 1, ws[p3] as int) {
                        None => None,
                        Some((ls, p4)) => Some(((ws[pos + 1], entry, ts, ls), p4)),
                    }
                },
            },
        }
    }
}

// ----- the byte layer --------------------------------------------------

/// The eight little-endian bytes of one word.
pub open spec fn word_bytes(v: u64) -> Seq<u8> {
    seq![
        (v & 0xff) as u8,
        ((v >> 8) & 0xff) as u8,
        ((v >> 16) & 0xff) as u8,
        ((v >> 24) & 0xff) as u8,
        ((v >> 32) & 0xff) as u8,
        ((v >> 40) & 0xff) as u8,
        ((v >> 48) & 0xff) as u8,
        ((v >> 56) & 0xff) as u8,
    ]
}

/// The bytes of a word sequence.
pub open spec fn bytes_of_words(ws: Seq<u64>) -> Seq<u8>
    decreases ws.len(),
{
    if ws.len() == 0 {
        Seq::empty()
    } else {
        bytes_of_words(ws.drop_last()) + word_bytes(ws.last())
    }
}

/// The word a group of eight bytes denotes.
pub open spec fn word_of(b0: u8, b1: u8, b2: u8, b3: u8, b4: u8, b5: u8, b6: u8, b7: u8) -> u64 {
    (b0 as u64) | ((b1 as u64) << 8) | ((b2 as u64) << 16) | ((b3 as u64) << 24) | ((b4 as u64)
        << 32) | ((b5 as u64) << 40) | ((b6 as u64) << 48) | ((b7 as u64) << 56)
}

proof fn lemma_word_bytes_of(b0: u8, b1: u8, b2: u8, b3: u8, b4: u8, b5: u8, b6: u8, b7: u8)
    ensures
        word_bytes(word_of(b0, b1, b2, b3, b4, b5, b6, b7)) == seq![b0, b1, b2, b3, b4, b5, b6, b7],
{
    let v = word_of(b0, b1, b2, b3, b4, b5, b6, b7);
    assert((v & 0xff) as u8 == b0 && ((v >> 8) & 0xff) as u8 == b1 && ((v >> 16) & 0xff) as u8
        == b2 && ((v >> 24) & 0xff) as u8 == b3 && ((v >> 32) & 0xff) as u8 == b4 && ((v >> 40)
        & 0xff) as u8 == b5 && ((v >> 48) & 0xff) as u8 == b6 && ((v >> 56) & 0xff) as u8 == b7)
        by (bit_vector)
        requires
            v == (b0 as u64) | ((b1 as u64) << 8) | ((b2 as u64) << 16) | ((b3 as u64) << 24) | ((
            b4 as u64) << 32) | ((b5 as u64) << 40) | ((b6 as u64) << 48) | ((b7 as u64) << 56),
    ;
    assert(word_bytes(v) =~= seq![b0, b1, b2, b3, b4, b5, b6, b7]);
}

proof fn lemma_word_of_bytes(v: u64)
    ensures
        word_of(
            (v & 0xff) as u8,
            ((v >> 8) & 0xff) as u8,
            ((v >> 16) & 0xff) as u8,
            ((v >> 24) & 0xff) as u8,
            ((v >> 32) & 0xff) as u8,
            ((v >> 40) & 0xff) as u8,
            ((v >> 48) & 0xff) as u8,
            ((v >> 56) & 0xff) as u8,
        ) == v,
{
    assert(((v & 0xff) as u8 as u64) | (((v >> 8) & 0xff) as u8 as u64) << 8 | (((v >> 16)
        & 0xff) as u8 as u64) << 16 | (((v >> 24) & 0xff) as u8 as u64) << 24 | (((v >> 32)
        & 0xff) as u8 as u64) << 32 | (((v >> 40) & 0xff) as u8 as u64) << 40 | (((v >> 48)
        & 0xff) as u8 as u64) << 48 | (((v >> 56) & 0xff) as u8 as u64) << 56 == v)
        by (bit_vector);
}

/// Serialize a word sequence to its bytes.
pub fn words_to_bytes(ws: &Vec<u64>) -> (r: Vec<u8>)
    ensures
        r@ == bytes_of_words(ws@),
        r@.len() == 8 * ws@.len(),
{
    let mut out: Vec<u8> = Vec::new();
    let mut i: usize = 0;
    while i < ws.len()
        invariant
            i <= ws@.len(),
            out@ == bytes_of_words(ws@.take(i as int)),
            out@.len() == 8 * i,
        decreases ws@.len() - i,
    {
        let v = ws[i];
        let ghost before = out@;
        out.push((v & 0xff) as u8);
        out.push(((v >> 8) & 0xff) as u8);
        out.push(((v >> 16) & 0xff) as u8);
        out.push(((v >> 24) & 0xff) as u8);
        out.push(((v >> 32) & 0xff) as u8);
        out.push(((v >> 40) & 0xff) as u8);
        out.push(((v >> 48) & 0xff) as u8);
        out.push(((v >> 56) & 0xff) as u8);
        proof {
            assert(out@ =~= before + word_bytes(v));
            assert(ws@.take(i as int + 1).drop_last() =~= ws@.take(i as int));
            assert(ws@.take(i as int + 1).last() == ws@[i as int]);
        }
        i = i + 1;
    }
    proof {
        assert(ws@.take(ws@.len() as int) =~= ws@);
    }
    out
}

/// The words a byte sequence denotes, eight bytes at a time.
pub open spec fn words_of_bytes(b: Seq<u8>) -> Seq<u64> {
    Seq::new((b.len() / 8) as nat, |i: int|
        word_of(
            b[8 * i],
            b[8 * i + 1],
            b[8 * i + 2],
            b[8 * i + 3],
            b[8 * i + 4],
            b[8 * i + 5],
            b[8 * i + 6],
            b[8 * i + 7],
        ))
}

/// Parse bytes back into words; fails exactly when the length is not a
/// multiple of eight.
pub fn bytes_to_words(b: &Vec<u8>) -> (r: Result<Vec<u64>, StoreError>)
    ensures
        match r {
            Ok(ws) => b@ == bytes_of_words(ws@) && b@.len() == 8 * ws@.len() && ws@
                == words_of_bytes(b@),
            Err(e) => e == StoreError::Corrupt && b@.len() % 8 != 0,
        },
{
    if b.len() % 8 != 0 {
        return Err(StoreError::Corrupt);
    }
    let n = b.len() / 8;
    let mut out: Vec<u64> = Vec::new();
    let mut i: usize = 0;
    while i < n
        invariant
            i <= n,
            b@.len() == 8 * n,
            out@.len() == i,
            b@.take(8 * i as int) == bytes_of_words(out@),
            forall|j: int| 0 <= j < i ==> #[trigger] out@[j] == words_of_bytes(b@)[j],
        decreases n - i,
    {
        let p = 8 * i;
        let b0 = b[p];
        let b1 = b[p + 1];
        let b2 = b[p + 2];
        let b3 = b[p + 3];
        let b4 = b[p + 4];
        let b5 = b[p + 5];
        let b6 = b[p + 6];
        let b7 = b[p + 7];
        let v: u64 = (b0 as u64) | ((b1 as u64) << 8) | ((b2 as u64) << 16) | ((b3 as u64) << 24)
            | ((b4 as u64) << 32) | ((b5 as u64) << 40) | ((b6 as u64) << 48) | ((b7 as u64)
            << 56);
        let ghost before = out@;
        out.push(v);
        proof {
            assert(v == word_of(b0, b1, b2, b3, b4, b5, b6, b7));
            lemma_word_bytes_of(b0, b1, b2, b3, b4, b5, b6, b7);
            assert(out@.drop_last() =~= before);
            assert(b@.take(8 * (i as int + 1)) =~= b@.take(8 * i as int) + seq![
                b0,
                b1,
                b2,
                b3,
                b4,
                b5,
                b6,
                b7,
            ]);
            assert(b@.take(8 * (i as int + 1)) =~= bytes_of_words(out@));
        }
        i = i + 1;
    }
    proof {
        assert(b@.take(8 * n as int) =~= b@);
        assert(out@ =~= words_of_bytes(b@));
    }
    Ok(out)
}

/// Bytes of words always parse back to the words.
pub proof fn lemma_bytes_words_rt(ws: Seq<u64>)
    ensures
        bytes_of_words(ws).len() == 8 * ws.len(),
        bytes_of_words(ws).len() % 8 == 0,
    decreases ws.len(),
{
    if ws.len() > 0 {
        lemma_bytes_words_rt(ws.drop_last());
    }
}

/// The eight bytes of word `i` inside a serialized word sequence.
proof fn lemma_bytes_words_index(ws: Seq<u64>, i: int)
    requires
        0 <= i < ws.len(),
    ensures
        bytes_of_words(ws).subrange(8 * i, 8 * i + 8) == word_bytes(ws[i]),
    decreases ws.len(),
{
    lemma_bytes_words_rt(ws);
    lemma_bytes_words_rt(ws.drop_last());
    let b = bytes_of_words(ws);
    if i == ws.len() - 1 {
        assert(b == bytes_of_words(ws.drop_last()) + word_bytes(ws.last()));
        assert(b.subrange(8 * i, 8 * i + 8) =~= word_bytes(ws[i]));
    } else {
        lemma_bytes_words_index(ws.drop_last(), i);
        assert(b == bytes_of_words(ws.drop_last()) + word_bytes(ws.last()));
        assert forall|t: int|
            0 <= t < 8 implies b.subrange(8 * i, 8 * i + 8)[t] == word_bytes(ws[i])[t] by {
            assert(b[8 * i + t] == bytes_of_words(ws.drop_last())[8 * i + t]);
            assert(bytes_of_words(ws.drop_last()).subrange(8 * i, 8 * i + 8)[t]
                == bytes_of_words(ws.drop_last())[8 * i + t]);
            assert(ws.drop_last()[i] == ws[i]);
        }
        assert(b.subrange(8 * i, 8 * i + 8) =~= word_bytes(ws[i]));
    }
}

/// Serializing words and reading the bytes back is the identity.
pub proof fn lemma_words_of_bytes_rt(ws: Seq<u64>)
    ensures
        words_of_bytes(bytes_of_words(ws)) == ws,
{
    lemma_bytes_words_rt(ws);
    let b = bytes_of_words(ws);
    assert forall|i: int| 0 <= i < ws.len() implies words_of_bytes(b)[i] == ws[i] by {
        lemma_bytes_words_index(ws, i);
        let w = word_bytes(ws[i]);
        assert(b[8 * i] == w[0] && b[8 * i + 1] == w[1] && b[8 * i + 2] == w[2] && b[8 * i + 3]
            == w[3] && b[8 * i + 4] == w[4] && b[8 * i + 5] == w[5] && b[8 * i + 6] == w[6] && b[8
            * i + 7] == w[7]) by {
            assert(forall|t: int| 0 <= t < 8 ==> #[trigger] w[t] == b.subrange(
                8 * i,
                8 * i + 8,
            )[t]);
        }
        lemma_word_of_bytes(ws[i]);
    }
    assert(words_of_bytes(b) =~= ws);
}

// ----- encodability ----------------------------------------------------

pub open spec fn chars_enc_ok(s: Seq<char>) -> bool {
    s.len() <= usize::MAX
}

pub open spec fn meta_enc_ok(m: Seq<Seq<char>>) -> bool {
    m.len() <= usize::MAX && forall|i: int| 0 <= i < m.len() ==> (#[trigger] m[i]).len() <= usize::MAX
}

pub open spec fn source_enc_ok(s: SourceView) -> bool {
    chars_enc_ok(s.filepath) && meta_enc_ok(s.meta)
}

pub open spec fn emb_enc_ok(e: EmbeddingView) -> bool {
    e.data.len() <= usize::MAX && source_enc_ok(e.source_file)
}

pub open spec fn embs_enc_ok(es: Seq<EmbeddingView>) -> bool {
    es.len() <= usize::MAX && forall|i: int| 0 <= i < es.len() ==> emb_enc_ok(#[trigger] es[i])
}

pub open spec fn block_enc_ok(b: BlockV) -> bool {
    embs_enc_ok(b.embeddings)
}


/// Pointwise view of a matched subrange.
proof fn lemma_sub_index(ws: Seq<u64>, pos: int, e: Seq<u64>)
    requires
        0 <= pos,
        pos + e.len() <= ws.len(),
        ws.subrange(pos, pos + e.len()) == e,
    ensures
        forall|i: int| 0 <= i < e.len() ==> ws[pos + i] == #[trigger] e[i],
{
    assert forall|i: int| 0 <= i < e.len() implies ws[pos + i] == #[trigger] e[i] by {
        assert(e[i] == ws.subrange(pos, pos + e.len())[i]);
    }
}

/// A component of a matched concatenation is itself matched.
proof fn lemma_sub_part(ws: Seq<u64>, pos: int, e: Seq<u64>, off: int, part: Seq<u64>)
    requires
        0 <= pos,
        pos + e.len() <= ws.len(),
        ws.subrange(pos, pos + e.len()) == e,
        0 <= off,
        off + part.len() <= e.len(),
        forall|i: int| 0 <= i < part.len() ==> #[trigger] part[i] == e[off + i],
    ensures
        ws.subrange(pos + off, pos + off + part.len()) == part,
{
    lemma_sub_index(ws, pos, e);
    assert forall|i: int|
        0 <= i < part.len() implies ws.subrange(pos + off, pos + off + part.len())[i] == part[i] by {
        assert(ws[pos + off + i] == e[off + i]);
    }
    assert(ws.subrange(pos + off, pos + off + part.len()) =~= part);
}

proof fn lemma_char_rt(c: char)
    ensures
        char_ok(c as u64),
        (c as u64) as char == c,
{
    assert(c as u32 <= 0xD7FF || (0xE000 <= c as u32 && c as u32 <= 0x10FFFF));
}

proof fn lemma_i64_rt(x: i64)
    ensures
        ((x as u64) as i64) == x,
{
    assert(((x as u64) as i64) == x) by (bit_vector);
}

// ----- round trips (the codec law) -------------------------------------

/// Decoding an encoded character sequence returns it exactly.
pub proof fn lemma_rt_chars(s: Seq<char>, ws: Seq<u64>, pos: int)
    requires
        chars_enc_ok(s),
        0 <= pos,
        pos + enc_chars(s).len() <= ws.len(),
        ws.subrange(pos, pos + enc_chars(s).len()) == enc_chars(s),
    ensures
        dec_chars(ws, pos) == Some((s, pos + enc_chars(s).len())),
{
    let e = enc_chars(s);
    let n = s.len() as int;
    lemma_sub_index(ws, pos, e);
    assert(ws[pos] == e[0]);
    assert(e[0] == n as u64);
    assert forall|i: int| 0 <= i < n implies ws[pos + 1 + i] == s[i] as u64 by {
        assert(ws[pos + (1 + i)] == e[1 + i]);
        assert(e[1 + i] == s[i] as u64);
    }
    assert forall|i: int| 0 <= i < n implies char_ok(#[trigger] ws[pos + 1 + i]) by {
        assert(ws[pos + 1 + i] == s[i] as u64);
        lemma_char_rt(s[i]);
    }
    assert forall|i: int| 0 <= i < n implies ws[pos + 1 + i] as char == s[i] by {
        lemma_char_rt(s[i]);
    }
    assert(Seq::new(n as nat, |i: int| ws[pos + 1 + i] as char) =~= s);
}

/// Decoding an encoded component vector returns it exactly.
pub proof fn lemma_rt_data(d: Seq<i64>, ws: Seq<u64>, pos: int)
    requires
        d.len() <= usize::MAX,
        0 <= pos,
        pos + enc_data(d).len() <= ws.len(),
        ws.subrange(pos, pos + enc_data(d).len()) == enc_data(d),
    ensures
        dec_data(ws, pos) == Some((d, pos + enc_data(d).len())),
{
    let e = enc_data(d);
    let n = d.len() as int;
    lemma_sub_index(ws, pos, e);
    assert(ws[pos] == e[0]);
    assert forall|i: int| 0 <= i < n implies (ws[pos + 1 + i] as i64) == #[trigger] d[i] by {
        assert(ws[pos + (1 + i)] == e[1 + i]);
        assert(e[1 + i] == d[i] as u64);
        lemma_i64_rt(d[i]);
    }
    assert(Seq::new(n as nat, |i: int| ws[pos + 1 + i] as i64) =~= d);
}

pub proof fn lemma_rt_opt_pair(o: Option<(u64, u64)>, ws: Seq<u64>, pos: int)
    requires
        0 <= pos,
        pos + enc_opt_pair(o).len() <= ws.len(),
        ws.subrange(pos, pos + enc_opt_pair(o).len()) == enc_opt_pair(o),
    ensures
        dec_opt_pair(ws, pos) == Some((o, pos + enc_opt_pair(o).len())),
{
    let e = enc_opt_pair(o);
    lemma_sub_index(ws, pos, e);
    match o {
        None => {
            assert(ws[pos + 0] == e[0]);
        },
        Some((a, b)) => {
            assert(ws[pos + 0] == e[0]);
            assert(ws[pos + 1] == e[1]);
            assert(ws[pos + 2] == e[2]);
        },
    }
}

proof fn lemma_rt_meta_items(m: Seq<Seq<char>>, ws: Seq<u64>, pos: int)
    requires
        meta_enc_ok(m),
        0 <= pos,
        pos + enc_meta_items(m).len() <= ws.len(),
        ws.subrange(pos, pos + enc_meta_items(m).len()) == enc_meta_items(m),
    ensures
        dec_meta_items(ws, pos, m.len() as int) == Some((m, pos + enc_meta_items(m).len())),
    decreases m.len(),
{
    if m.len() == 0 {
        assert(m =~= Seq::<Seq<char>>::empty());
    } else {
        let dl = m.drop_last();
        let e0 = enc_meta_items(dl);
        let e1 = enc_chars(m.last());
        assert(enc_meta_items(m) == e0 + e1);
        assert(meta_enc_ok(dl)) by {
            assert(forall|i: int| 0 <= i < dl.len() ==> dl[i] == #[trigger] m[i]);
        }
        lemma_sub_part(ws, pos, e0 + e1, 0, e0);
        lemma_rt_meta_items(dl, ws, pos);
        let p2 = pos + e0.len();
        lemma_sub_part(ws, pos, e0 + e1, e0.len() as int, e1);
        assert(chars_enc_ok(m.last()));
        lemma_rt_chars(m.last(), ws, p2);
        assert(dl.push(m.last()) =~= m);
    }
}

pub proof fn lemma_rt_meta(m: Seq<Seq<char>>, ws: Seq<u64>, pos: int)
    requires
        meta_enc_ok(m),
        0 <= pos,
        pos + enc_meta(m).len() <= ws.len(),
        ws.subrange(pos, pos + enc_meta(m).len()) == enc_meta(m),
    ensures
        dec_meta(ws, pos) == Some((m, pos + enc_meta(m).len())),
{
    let e = enc_meta(m);
    let items = enc_meta_items(m);
    lemma_sub_index(ws, pos, e);
    assert(ws[pos + 0] == e[0]);
    assert(e[0] == m.len() as u64);
    lemma_sub_part(ws, pos, e, 1, items);
    lemma_rt_meta_items(m, ws, pos + 1);
}

pub proof fn lemma_rt_source(s: SourceView, ws: Seq<u64>, pos: int)
    requires
        source_enc_ok(s),
        0 <= pos,
        pos + enc_source(s).len() <= ws.len(),
        ws.subrange(pos, pos + enc_source(s).len()) == enc_source(s),
    ensures
        dec_source(ws, pos) == Some((s, pos + enc_source(s).len())),
{
    let e0 = enc_chars(s.filepath);
    let e1 = enc_meta(s.meta);
    let e2 = enc_opt_pair(s.subset);
    let e = enc_source(s);
    assert(e == e0 + e1 + e2);
    lemma_sub_part(ws, pos, e, 0, e0);
    lemma_rt_chars(s.filepath, ws, pos);
    let p2 = pos + e0.len();
    lemma_sub_part(ws, pos, e, e0.len() as int, e1);
    lemma_rt_meta(s.meta, ws, p2);
    let p3 = p2 + e1.len();
    lemma_sub_part(ws, pos, e, e0.len() as int + e1.len() as int, e2);
    lemma_rt_opt_pair(s.subset, ws, p3);
}

pub proof fn lemma_rt_emb(v: EmbeddingView, ws: Seq<u64>, pos: int)
    requires
        emb_enc_ok(v),
        0 <= pos,
        pos + enc_emb(v).len() <= ws.len(),
        ws.subrange(pos, pos + enc_emb(v).len()) == enc_emb(v),
    ensures
        dec_emb(ws, pos) == Some((v, pos + enc_emb(v).len())),
{
    let e = enc_emb(v);
    let e0 = enc_data(v.data);
    let e1 = enc_source(v.source_file);
    assert(e == seq![v.id] + e0 + e1);
    lemma_sub_index(ws, pos, e);
    assert(ws[pos + 0] == e[0]);
    lemma_sub_part(ws, pos, e, 1, e0);
    lemma_rt_data(v.data, ws, pos + 1);
    let p2 = pos + 1 + e0.len();
    lemma_sub_part(ws, pos, e, 1 + e0.len() as int, e1);
    lemma_rt_source(v.source_file, ws, p2);
}

proof fn lemma_rt_emb_items(es: Seq<EmbeddingView>, ws: Seq<u64>, pos: int)
    requires
        embs_enc_ok(es),
        0 <= pos,
        pos + enc_emb_items(es).len() <= ws.len(),
        ws.subrange(pos, pos + enc_emb_items(es).len()) == enc_emb_items(es),
    ensures
        dec_emb_items(ws, pos, es.len() as int) == Some((es, pos + enc_emb_items(es).len())),
    decreases es.len(),
{
    if es.len() == 0 {
        assert(es =~= Seq::<EmbeddingView>::empty());
    } else {
        let dl = es.drop_last();
        let e0 = enc_emb_items(dl);
        let e1 = enc_emb(es.last());
        assert(enc_emb_items(es) == e0 + e1);
        assert(embs_enc_ok(dl)) by {
            assert(forall|i: int| 0 <= i < dl.len() ==> dl[i] == #[trigger] es[i]);
        }
        lemma_sub_part(ws, pos, e0 + e1, 0, e0);
        lemma_rt_emb_items(dl, ws, pos);
        let p2 = pos + e0.len();
        lemma_sub_part(ws, pos, e0 + e1, e0.len() as int, e1);
        assert(emb_enc_ok(es.last()));
        lemma_rt_emb(es.last(), ws, p2);
        assert(dl.push(es.last()) =~= es);
    }
}

pub proof fn lemma_rt_embs(es: Seq<EmbeddingView>, ws: Seq<u64>, pos: int)
    requires
        embs_enc_ok(es),
        0 <= pos,
        pos + enc_embs(es).len() <= ws.len(),
        ws.subrange(pos, pos + enc_embs(es).len()) == enc_embs(es),
    ensures
        dec_embs(ws, pos) == Some((es, pos + enc_embs(es).len())),
{
    let e = enc_embs(es);
    let items = enc_emb_items(es);
    lemma_sub_index(ws, pos, e);
    assert(ws[pos + 0] == e[0]);
    lemma_sub_part(ws, pos, e, 1, items);
    lemma_rt_emb_items(es, ws, pos + 1);
}

/// The codec round trip for block files: decoding an encoding returns the
/// block and consumes exactly the encoding's length.
pub proof fn lemma_rt_block(b: BlockV, ws: Seq<u64>, pos: int)
    requires
        block_enc_ok(b),
        0 <= pos,
        pos + enc_block(b).len() <= ws.len(),
        ws.subrange(pos, pos + enc_block(b).len()) == enc_block(b),
    ensures
        dec_block(ws, pos) == Some((b, pos + enc_block(b).len())),
{
    let e = enc_block(b);
    let items = enc_embs(b.embeddings);
    lemma_sub_index(ws, pos, e);
    assert(ws[pos + 0] == e[0]);
    assert(ws[pos + 1] == e[1]);
    lemma_sub_part(ws, pos, e, 2, items);
    lemma_rt_embs(b.embeddings, ws, pos + 2);
}

proof fn lemma_rt_node_items(l: Seq<NodeV>, ws: Seq<u64>, pos: int)
    requires
        l.len() <= usize::MAX,
        forall|i: int| 0 <= i < l.len() ==> (#[trigger] l[i]).neighbors.len() <= usize::MAX,
        0 <= pos,
        pos + enc_node_items(l).len() <= ws.len(),
        ws.subrange(pos, pos + enc_node_items(l).len()) == enc_node_items(l),
    ensures
        dec_node_items(ws, pos, l.len() as int) == Some((l, pos + enc_node_items(l).len())),
    decreases l.len(),
{
    if l.len() == 0 {
        assert(l =~= Seq::<NodeV>::empty());
    } else {
        let dl = l.drop_last();
        let e0 = enc_node_items(dl);
        let e1 = enc_node(l.last());
        assert(enc_node_items(l) == e0 + e1);
        assert(forall|i: int| 0 <= i < dl.len() ==> dl[i] == #[trigger] l[i]);
        lemma_sub_part(ws, pos, e0 + e1, 0, e0);
        lemma_rt_node_items(dl, ws, pos);
        let p2 = pos + e0.len();
        lemma_sub_part(ws, pos, e0 + e1, e0.len() as int, e1);
        lemma_rt_node(l.last(), ws, p2);
        assert(dl.push(l.last()) =~= l);
    }
}

proof fn lemma_rt_node(nd: NodeV, ws: Seq<u64>, pos: int)
    requires
        nd.neighbors.len() <= usize::MAX,
        0 <= pos,
        pos + enc_node(nd).len() <= ws.len(),
        ws.subrange(pos, pos + enc_node(nd).len()) == enc_node(nd),
    ensures
        dec_node(ws, pos) == Some((nd, pos + enc_node(nd).len())),
{
    let e = enc_node(nd);
    let e1 = enc_edges(nd.neighbors);
    lemma_sub_index(ws, pos, e);
    assert(ws[pos + 0] == e[0]);
    lemma_sub_part(ws, pos, e, 1, e1);
    lemma_rt_edges(nd.neighbors, ws, pos + 1);
}

proof fn lemma_rt_edges(ns: Seq<(u64, i64)>, ws: Seq<u64>, pos: int)
    requires
        ns.len() <= usize::MAX,
        0 <= pos,
        pos + enc_edges(ns).len() <= ws.len(),
        ws.subrange(pos, pos + enc_edges(ns).len()) == enc_edges(ns),
    ensures
        dec_edges(ws, pos) == Some((ns, pos + enc_edges(ns).len())),
{
    let e = enc_edges(ns);
    let n = ns.len() as int;
    lemma_sub_index(ws, pos, e);
    assert(ws[pos + 0] == e[0]);
    assert forall|i: int| 0 <= i < n implies (ws[pos + 1 + 2 * i], ws[pos + 2 + 2 * i] as i64)
        == #[trigger] ns[i] by {
        assert(ws[pos + (1 + 2 * i)] == e[1 + 2 * i]);
        assert(ws[pos + (2 + 2 * i)] == e[1 + (2 * i + 1)]);
        assert(e[1 + 2 * i] == ns[(2 * i) / 2].0);
        assert(e[1 + (2 * i + 1)] == ns[(2 * i + 1) / 2].1 as u64);
        assert((2 * i) / 2 == i && (2 * i + 1) / 2 == i);
        lemma_i64_rt(ns[i].1);
    }
    assert(Seq::new(n as nat, |i: int| (ws[pos + 1 + 2 * i], ws[pos + 2 + 2 * i] as i64)) =~= ns);
}

proof fn lemma_rt_layer(l: Seq<NodeV>, ws: Seq<u64>, pos: int)
    requires
        l.len() <= usize::MAX,
        forall|i: int| 0 <= i < l.len() ==> (#[trigger] l[i]).neighbors.len() <= usize::MAX,
        0 <= pos,
        pos + enc_layer(l).len() <= ws.len(),
        ws.subrange(pos, pos + enc_layer(l).len()) == enc_layer(l),
    ensures
        dec_layer(ws, pos) == Some((l, pos + enc_layer(l).len())),
{
    let e = enc_layer(l);
    let items = enc_node_items(l);
    lemma_sub_index(ws, pos, e);
    assert(ws[pos + 0] == e[0]);
    lemma_sub_part(ws, pos, e, 1, items);
    lemma_rt_node_items(l, ws, pos + 1);
}

/// Every layer of an encodable index is itself encodable.
pub open spec fn layers_enc_ok(ls: Seq<Seq<NodeV>>) -> bool {
    &&& ls.len() <= usize::MAX
    &&& forall|i: int| 0 <= i < ls.len() ==> (#[trigger] ls[i]).len() <= usize::MAX
    &&& forall|i: int, j: int|
        0 <= i < ls.len() && 0 <= j < ls[i].len() ==> (#[trigger] ls[i][j]).neighbors.len()
            <= usize::MAX
}

proof fn lemma_rt_layer_items(ls: Seq<Seq<NodeV>>, ws: Seq<u64>, pos: int)
    requires
        layers_enc_ok(ls),
        0 <= pos,
        pos + enc_layer_items(ls).len() <= ws.len(),
        ws.subrange(pos, pos + enc_layer_items(ls).len()) == enc_layer_items(ls),
    ensures
        dec_layer_items(ws, pos, ls.len() as int) == Some((ls, pos + enc_layer_items(ls).len())),
    decreases ls.len(),
{
    if ls.len() == 0 {
        assert(ls =~= Seq::<Seq<NodeV>>::empty());
    } else {
        let dl = ls.drop_last();
        let e0 = enc_layer_items(dl);
        let e1 = enc_layer(ls.last());
        assert(enc_layer_items(ls) == e0 + e1);
        assert(layers_enc_ok(dl)) by {
            assert(forall|i: int| 0 <= i < dl.len() ==> dl[i] == #[trigger] ls[i]);
        }
        lemma_sub_part(ws, pos, e0 + e1, 0, e0);
        lemma_rt_layer_items(dl, ws, pos);
        let p2 = pos + e0.len();
        lemma_sub_part(ws, pos, e0 + e1, e0.len() as int, e1);
        assert(ls.last().len() <= usize::MAX);
        assert(forall|j: int|
            0 <= j < ls.last().len() ==> (#[trigger] ls.last()[j]).neighbors.len() <= usize::MAX);
        lemma_rt_layer(ls.last(), ws, p2);
        assert(dl.push(ls.last()) =~= ls);
    }
}

pub proof fn lemma_rt_opt_u64(o: Option<u64>, ws: Seq<u64>, pos: int)
    requires
        0 <= pos,
        pos + enc_opt_u64(o).len() <= ws.len(),
        ws.subrange(pos, pos + enc_opt_u64(o).len()) == enc_opt_u64(o),
    ensures
        dec_opt_u64(ws, pos) == Some((o, pos + enc_opt_u64(o).len())),
{
    let e = enc_opt_u64(o);
    lemma_sub_index(ws, pos, e);
    match o {
        None => {
            assert(ws[pos + 0] == e[0]);
        },
        Some(v) => {
            assert(ws[pos + 0] == e[0]);
            assert(ws[pos + 1] == e[1]);
        },
    }
}

pub proof fn lemma_rt_words_list(ts: Seq<u64>, ws: Seq<u64>, pos: int)
    requires
        ts.len() <= usize::MAX,
        0 <= pos,
        pos + enc_words_list(ts).len() <= ws.len(),
        ws.subrange(pos, pos + enc_words_list(ts).len()) == enc_words_list(ts),
    ensures
        dec_words_list(ws, pos) == Some((ts, pos + enc_words_list(ts).len())),
{
    let e = enc_words_list(ts);
    lemma_sub_index(ws, pos, e);
    assert(ws[pos + 0] == e[0]);
    lemma_sub_part(ws, pos, e, 1, ts);
}

/// The codec round trip for index files.
pub proof fn lemma_rt_hnsw(h: &HNSW, ws: Seq<u64>, pos: int)
    requires
        layers_enc_ok(h.v_layers()),
        h.thresholds@.len() <= usize::MAX,
        0 <= pos,
        pos + enc_hnsw(h).len() <= ws.len(),
        ws.subrange(pos, pos + enc_hnsw(h).len()) == enc_hnsw(h),
    ensures
        dec_hnsw(ws, pos) == Some(
            ((h.size as u64, h.entry_id, h.thresholds@, h.v_layers()), pos + enc_hnsw(h).len()),
        ),
{
    let e = enc_hnsw(h);
    let e0 = enc_opt_u64(h.entry_id);
    let e1 = enc_words_list(h.thresholds@);
    let e2 = enc_layer_items(h.v_layers());
    assert(e == seq![INDEX_TAG, h.size as u64] + e0 + e1 + seq![h.v_layers().len() as u64] + e2);
    lemma_sub_index(ws, pos, e);
    assert(ws[pos + 0] == e[0]);
    assert(ws[pos + 1] == e[1]);
    lemma_sub_part(ws, pos, e, 2, e0);
    lemma_rt_opt_u64(h.entry_id, ws, pos + 2);
    let p2 = pos + 2 + e0.len();
    lemma_sub_part(ws, pos, e, 2 + e0.len() as int, e1);
    lemma_rt_words_list(h.thresholds@, ws, p2);
    let p3 = p2 + e1.len();
    assert(ws[pos + (2 + e0.len() as int + e1.len() as int)] == e[2 + e0.len() as int
        + e1.len() as int]);
    assert(e[2 + e0.len() as int + e1.len() as int] == h.v_layers().len() as u64);
    lemma_sub_part(ws, pos, e, 3 + e0.len() as int + e1.len() as int, e2);
    lemma_rt_layer_items(h.v_layers(), ws, p3 + 1);
}

// ----- executable encoders --------------------------------------------

fn emit_chars(out: &mut Vec<u64>, s: &String)
    ensures
        final(out)@ == old(out)@ + enc_chars(s@),
{
    let chars = string_to_chars(s.as_str());
    let ghost base = out@;
    out.push(chars.len() as u64);
    let mut i: usize = 0;
    while i < chars.len()
        invariant
            i <= chars@.len(),
            chars@ == s@,
            out@ == base + seq![s@.len() as u64] + Seq::new(i as nat, |j: int| s@[j] as u64),
        decreases chars@.len() - i,
    {
        out.push(chars[i] as u64);
        proof {
            assert(out@ =~= base + seq![s@.len() as u64] + Seq::new(
                i as nat + 1,
                |j: int| s@[j] as u64,
            ));
        }
        i = i + 1;
    }
    proof {
        assert(out@ =~= base + enc_chars(s@));
    }
}

fn emit_data(out: &mut Vec<u64>, d: &Vec<i64>)
    ensures
        final(out)@ == old(out)@ + enc_data(d@),
{
    let ghost base = out@;
    out.push(d.len() as u64);
    let mut i: usize = 0;
    while i < d.len()
        invariant
            i <= d@.len(),
            out@ == base + seq![d@.len() as u64] + Seq::new(i as nat, |j: int| d@[j] as u64),
        decreases d@.len() - i,
    {
        out.push(d[i] as u64);
        proof {
            assert(out@ =~= base + seq![d@.len() as u64] + Seq::new(
                i as nat + 1,
                |j: int| d@[j] as u64,
            ));
        }
        i = i + 1;
    }
    proof {
        assert(out@ =~= base + enc_data(d@));
    }
}

fn emit_source(out: &mut Vec<u64>, s: &EmbeddingSource)
    ensures
        final(out)@ == old(out)@ + enc_source(s@),
{
    let ghost base = out@;
    emit_chars(out, &s.filepath);
    // metadata tags
    let ghost base_meta = out@;
    out.push(s.meta.len() as u64);
    let mut i: usize = 0;
    while i < s.meta.len()
        invariant
            i <= s.meta@.len(),
            out@ == base_meta + seq![s.meta@.len() as u64] + enc_meta_items(
                strings_view(s.meta@).take(i as int),
            ),
        decreases s.meta@.len() - i,
    {
        emit_chars(out, &s.meta[i]);
        proof {
            let mv = strings_view(s.meta@);
            assert(mv.take(i as int + 1).drop_last() =~= mv.take(i as int));
            assert(mv.take(i as int + 1).last() == mv[i as int]);
            assert(mv[i as int] == s.meta@[i as int]@);
            assert(out@ =~= base_meta + seq![s.meta@.len() as u64] + enc_meta_items(
                mv.take(i as int + 1),
            ));
        }
        i = i + 1;
    }
    proof {
        assert(strings_view(s.meta@).take(s.meta@.len() as int) =~= strings_view(s.meta@));
    }
    // subset
    match s.subset {
        None => {
            out.push(0);
        },
        Some((a, b)) => {
            out.push(1);
            out.push(a);
            out.push(b);
        },
    }
    proof {
        assert(out@ =~= base + enc_source(s@));
    }
}

fn emit_emb(out: &mut Vec<u64>, e: &Embedding)
    ensures
        final(out)@ == old(out)@ + enc_emb(e@),
{
    let ghost base = out@;
    out.push(e.id);
    emit_data(out, &e.data);
    emit_source(out, &e.source_file);
    proof {
        assert(out@ =~= base + enc_emb(e@));
    }
}

impl EmbeddingBlock {
    /// Encode this block as its file bytes.
    pub fn to_bytes(&self) -> (r: Vec<u8>)
        ensures
            r@ == bytes_of_words(enc_block(self@)),
            r@.len() % 8 == 0,
    {
        let mut ws: Vec<u64> = Vec::new();
        ws.push(BLOCK_TAG);
        ws.push(self.block);
        let ghost base = ws@;
        ws.push(self.embeddings.len() as u64);
        let mut i: usize = 0;
        while i < self.embeddings.len()
            invariant
                i <= self.embeddings@.len(),
                ws@ == base + seq![self.embeddings@.len() as u64] + enc_emb_items(
                    embs_view(self.embeddings@).take(i as int),
                ),
            decreases self.embeddings@.len() - i,
        {
            emit_emb(&mut ws, &self.embeddings[i]);
            proof {
                let ev = embs_view(self.embeddings@);
                assert(ev.take(i as int + 1).drop_last() =~= ev.take(i as int));
                assert(ev.take(i as int + 1).last() == ev[i as int]);
                assert(ev[i as int] == self.embeddings@[i as int]@);
                assert(ws@ =~= base + seq![self.embeddings@.len() as u64] + enc_emb_items(
                    ev.take(i as int + 1),
                ));
            }
            i = i + 1;
        }
        proof {
            let ev = embs_view(self.embeddings@);
            assert(ev.take(ev.len() as int) =~= ev);
            assert(ws@ =~= enc_block(self@));
            lemma_bytes_words_rt(ws@);
        }
        words_to_bytes(&ws)
    }
}

// ----- executable decoders --------------------------------------------

fn parse_chars(ws: &Vec<u64>, pos: usize) -> (r: Option<(String, usize)>)
    ensures
        match r {
            Some((v, np)) => dec_chars(ws@, pos as int) == Some((v@, np as int)),
            None => dec_chars(ws@, pos as int) is None,
        },
{
    if pos >= ws.len() {
        return None;
    }
    let w = ws[pos];
    if w > (usize::MAX as u64) {
        return None;
    }
    let n = w as usize;
    if n > ws.len() - pos - 1 {
        return None;
    }
    let mut chars: Vec<char> = Vec::new();
    let mut i: usize = 0;
    while i < n
        invariant
            i <= n,
            pos + 1 + n <= ws@.len(),
            n == ws@[pos as int] as int,
            chars@.len() == i,
            forall|j: int| 0 <= j < i ==> char_ok(#[trigger] ws@[pos + 1 + j]),
            forall|j: int| 0 <= j < i ==> #[trigger] chars@[j] == ws@[pos + 1 + j] as char,
        decreases n - i,
    {
        let w2 = ws[pos + 1 + i];
        if !(w2 < 0xD800 || (0xE000 <= w2 && w2 <= 0x10FFFF)) {
            proof {
                assert(!char_ok(ws@[pos as int + 1 + i as int]));
            }
            return None;
        }
        let w32: u32 = #[verifier::truncate] (w2 as u32);
        proof {
            assert((w32 as u64) == w2 && w32 as int == w2 as int) by (bit_vector)
                requires
                    w32 == w2 as u32,
                    w2 < 0xD800 || (0xE000 <= w2 && w2 <= 0x10FFFF),
            ;
        }
        let c = match char_from_u32(w32) {
            Some(c) => c,
            None => {
                proof {
                    assert(false);
                }
                ' '
            },
        };
        proof {
            assert(c == ws@[pos as int + 1 + i as int] as char);
        }
        chars.push(c);
        i = i + 1;
    }
    proof {
        assert(chars@ =~= Seq::new(n as nat, |j: int| ws@[pos + 1 + j] as char));
    }
    Some((string_from_chars(&chars), pos + 1 + n))
}

fn parse_data(ws: &Vec<u64>, pos: usize) -> (r: Option<(Vec<i64>, usize)>)
    ensures
        match r {
            Some((v, np)) => dec_data(ws@, pos as int) == Some((v@, np as int)),
            None => dec_data(ws@, pos as int) is None,
        },
{
    if pos >= ws.len() {
        return None;
    }
    let w = ws[pos];
    if w > (usize::MAX as u64) {
        return None;
    }
    let n = w as usize;
    if n > ws.len() - pos - 1 {
        return None;
    }
    let mut out: Vec<i64> = Vec::new();
    let mut i: usize = 0;
    while i < n
        invariant
            i <= n,
            pos + 1 + n <= ws@.len(),
            out@.len() == i,
            forall|j: int| 0 <= j < i ==> #[trigger] out@[j] == ws@[pos + 1 + j] as i64,
        decreases n - i,
    {
        let x: i64 = #[verifier::truncate] (ws[pos + 1 + i] as i64);
        out.push(x);
        i = i + 1;
    }
    proof {
        assert(out@ =~= Seq::new(n as nat, |j: int| ws@[pos + 1 + j] as i64));
    }
    Some((out, pos + 1 + n))
}

fn parse_opt_pair(ws: &Vec<u64>, pos: usize) -> (r: Option<(Option<(u64, u64)>, usize)>)
    ensures
        match r {
            Some((v, np)) => dec_opt_pair(ws@, pos as int) == Some((v, np as int)),
            None => dec_opt_pair(ws@, pos as int) is None,
        },
{
    if pos >= ws.len() {
        return None;
    }
    if ws[pos] == 0 {
        return Some((None, pos + 1));
    }
    if ws[pos] == 1 && ws.len() - pos >= 3 {
        return Some((Some((ws[pos + 1], ws[pos + 2])), pos + 3));
    }
    None
}

fn parse_source(ws: &Vec<u64>, pos: usize) -> (r: Option<(EmbeddingSource, usize)>)
    ensures
        match r {
            Some((v, np)) => dec_source(ws@, pos as int) == Some((v@, np as int)),
            None => dec_source(ws@, pos as int) is None,
        },
{
    let (filepath, p2) = match parse_chars(ws, pos) {
        Some(x) => x,
        None => {
            return None;
        },
    };
    // metadata tags
    if p2 >= ws.len() {
        return None;
    }
    let w = ws[p2];
    if w > (usize::MAX as u64) {
        return None;
    }
    let n = w as usize;
    let mut meta: Vec<String> = Vec::new();
    let mut cur: usize = p2 + 1;
    let mut i: usize = 0;
    proof {
        assert(strings_view(meta@) =~= Seq::<Seq<char>>::empty());
    }
    while i < n
        invariant
            i <= n,
            meta@.len() == i,
            dec_meta_items(ws@, p2 as int + 1, i as int) == Some(
                (strings_view(meta@), cur as int),
            ),
        decreases n - i,
    {
        let (tag, next) = match parse_chars(ws, cur) {
            Some(x) => x,
            None => {
                proof {
                    lemma_meta_items_fail(ws@, p2 as int + 1, i as int, n as int, cur as int);
                }
                return None;
            },
        };
        let ghost mprev = strings_view(meta@);
        meta.push(tag);
        proof {
            assert(strings_view(meta@) =~= mprev.push(tag@));
        }
        cur = next;
        i = i + 1;
    }
    // subset
    let (subset, p4) = match parse_opt_pair(ws, cur) {
        Some(x) => x,
        None => {
            return None;
        },
    };
    let src = EmbeddingSource { filepath, meta, subset };
    proof {
        assert(src@.meta == strings_view(meta@));
    }
    Some((src, p4))
}

/// A failing element parse fails the whole count-bounded list.
proof fn lemma_meta_items_fail(ws: Seq<u64>, pos: int, i: int, n: int, cur: int)
    requires
        0 <= i < n,
        dec_meta_items(ws, pos, i) == Some((dec_meta_items(ws, pos, i)->Some_0.0, cur)),
        dec_meta_items(ws, pos, i) is Some,
        dec_meta_items(ws, pos, i)->Some_0.1 == cur,
        dec_chars(ws, cur) is None,
    ensures
        dec_meta_items(ws, pos, n) is None,
    decreases n - i,
{
    if n == i + 1 {
    } else {
        lemma_meta_items_fail(ws, pos, i, n - 1, cur);
    }
}

fn parse_emb(ws: &Vec<u64>, pos: usize) -> (r: Option<(Embedding, usize)>)
    ensures
        match r {
            Some((v, np)) => dec_emb(ws@, pos as int) == Some((v@, np as int)),
            None => dec_emb(ws@, pos as int) is None,
        },
{
    if pos >= ws.len() {
        return None;
    }
    let id = ws[pos];
    let (data, p2) = match parse_data(ws, pos + 1) {
        Some(x) => x,
        None => {
            return None;
        },
    };
    let (source_file, p3) = match parse_source(ws, p2) {
        Some(x) => x,
        None => {
            return None;
        },
    };
    Some((Embedding { id, data, source_file }, p3))
}

proof fn lemma_emb_items_fail(ws: Seq<u64>, pos: int, i: int, n: int, cur: int)
    requires
        0 <= i < n,
        dec_emb_items(ws, pos, i) is Some,
        dec_emb_items(ws, pos, i)->Some_0.1 == cur,
        dec_emb(ws, cur) is None,
    ensures
        dec_emb_items(ws, pos, n) is None,
    decreases n - i,
{
    if n == i + 1 {
    } else {
        lemma_emb_items_fail(ws, pos, i, n - 1, cur);
    }
}

impl EmbeddingBlock {
    /// Decode a block from its file bytes; fails with `Corrupt` exactly
    /// when the bytes are not a whole number of words or do not start
    /// with an encoded block.  Returns the block and the number of bytes
    /// consumed.
    #[verifier::rlimit(100)]
    pub fn from_bytes(bytes: &Vec<u8>) -> (r: Result<(EmbeddingBlock, usize), StoreError>)
        ensures
            match r {
                Ok((blk, used)) => bytes@.len() % 8 == 0 && dec_block(words_of_bytes(bytes@), 0)
                    == Some((blk@, used as int / 8)) && used % 8 == 0 && used <= bytes@.len(),
                Err(e) => e == StoreError::Corrupt && (bytes@.len() % 8 != 0 || dec_block(
                    words_of_bytes(bytes@),
                    0,
                ) is None),
            },
    {
        let ws = match bytes_to_words(bytes) {
            Ok(ws) => ws,
            Err(_) => {
                return Err(StoreError::Corrupt);
            },
        };
        if ws.len() < 2 {
            return Err(StoreError::Corrupt);
        }
        if ws[0] != BLOCK_TAG {
            return Err(StoreError::Corrupt);
        }
        let block_num = ws[1];
        if 2 >= ws.len() {
            return Err(StoreError::Corrupt);
        }
        let w = ws[2];
        if w > (usize::MAX as u64) {
            return Err(StoreError::Corrupt);
        }
        let n = w as usize;
        let mut embs: Vec<Embedding> = Vec::new();
        let mut cur: usize = 3;
        let mut i: usize = 0;
        proof {
            assert(embs_view(embs@) =~= Seq::<EmbeddingView>::empty());
        }
        while i < n
            invariant
                i <= n,
                embs@.len() == i,
                dec_emb_items(ws@, 3, i as int) == Some((embs_view(embs@), cur as int)),
                cur <= ws@.len(),
            decreases n - i,
        {
            let (e, next) = match parse_emb(&ws, cur) {
                Some(x) => x,
                None => {
                    proof {
                        lemma_emb_items_fail(ws@, 3, i as int, n as int, cur as int);
                    }
                    return Err(StoreError::Corrupt);
                },
            };
            let ghost eprev = embs_view(embs@);
            embs.push(e);
            proof {
                assert(embs_view(embs@) =~= eprev.push(e@));
                assert(next as int <= ws@.len()) by {
                    lemma_dec_emb_bound(ws@, cur as int);
                }
            }
            cur = next;
            i = i + 1;
        }
        let blk = EmbeddingBlock { block: block_num, embeddings: embs };
        let total = bytes.len();
        proof {
            assert(dec_embs(ws@, 2) == Some((embs_view(embs@), cur as int)));
            assert(dec_block(ws@, 0) == Some((blk@, cur as int)));
            assert(cur as int * 8 <= ws@.len() as int * 8);
            assert(ws@.len() as int * 8 == bytes@.len() as int);
            assert(bytes@.len() == total as int);
        }
        Ok((blk, cur * 8))
    }
}

/// A successful parse never runs past the input.
proof fn lemma_dec_emb_bound(ws: Seq<u64>, pos: int)
    requires
        dec_emb(ws, pos) is Some,
    ensures
        dec_emb(ws, pos)->Some_0.1 <= ws.len(),
{
    let p1 = pos + 1;
    let d = dec_data(ws, p1)->Some_0;
    let s = dec_source(ws, d.1)->Some_0;
    lemma_dec_source_bound(ws, d.1);
}

proof fn lemma_dec_source_bound(ws: Seq<u64>, pos: int)
    requires
        dec_source(ws, pos) is Some,
    ensures
        dec_source(ws, pos)->Some_0.1 <= ws.len(),
{
    let c = dec_chars(ws, pos)->Some_0;
    let m = dec_meta(ws, c.1)->Some_0;
    let o = dec_opt_pair(ws, m.1)->Some_0;
}


// ----- index file serialization ----------------------------------------

fn parse_edges(ws: &Vec<u64>, pos: usize) -> (r: Option<(Vec<(u64, i64)>, usize)>)
    ensures
        match r {
            Some((v, np)) => dec_edges(ws@, pos as int) == Some((v@, np as int)),
            None => dec_edges(ws@, pos as int) is None,
        },
{
    if pos >= ws.len() {
        return None;
    }
    let w = ws[pos];
    if w > (usize::MAX as u64) {
        return None;
    }
    let n = w as usize;
    if n > (ws.len() - pos - 1) / 2 {
        proof {
            assert(pos as int + 1 + 2 * (n as int) > ws@.len());
        }
        return None;
    }
    let mut out: Vec<(u64, i64)> = Vec::new();
    let mut i: usize = 0;
    while i < n
        invariant
            i <= n,
            pos + 1 + 2 * n <= ws@.len(),
            out@.len() == i,
            forall|j: int|
                0 <= j < i ==> #[trigger] out@[j] == (ws@[pos + 1 + 2 * j], ws@[pos + 2 + 2
                    * j] as i64),
        decreases n - i,
    {
        let a = ws[pos + 1 + 2 * i];
        let b: i64 = #[verifier::truncate] (ws[pos + 2 + 2 * i] as i64);
        out.push((a, b));
        i = i + 1;
    }
    proof {
        assert(out@ =~= Seq::new(n as nat, |j: int| (ws@[pos + 1 + 2 * j], ws@[pos + 2 + 2
            * j] as i64)));
    }
    Some((out, pos + 1 + 2 * n))
}

fn parse_node(ws: &Vec<u64>, pos: usize) -> (r: Option<(GraphNode, usize)>)
    ensures
        match r {
            Some((v, np)) => dec_node(ws@, pos as int) == Some((v@, np as int)),
            None => dec_node(ws@, pos as int) is None,
        },
{
    if pos >= ws.len() {
        return None;
    }
    let id = ws[pos];
    let (neighbors, p2) = match parse_edges(ws, pos + 1) {
        Some(x) => x,
        None => {
            return None;
        },
    };
    Some((GraphNode { id, neighbors }, p2))
}

proof fn lemma_node_items_fail(ws: Seq<u64>, pos: int, i: int, n: int, cur: int)
    requires
        0 <= i < n,
        dec_node_items(ws, pos, i) is Some,
        dec_node_items(ws, pos, i)->Some_0.1 == cur,
        dec_node(ws, cur) is None,
    ensures
        dec_node_items(ws, pos, n) is None,
    decreases n - i,
{
    if n == i + 1 {
    } else {
        lemma_node_items_fail(ws, pos, i, n - 1, cur);
    }
}

fn parse_layer(ws: &Vec<u64>, pos: usize) -> (r: Option<(Layer, usize)>)
    ensures
        match r {
            Some((v, np)) => dec_layer(ws@, pos as int) == Some((v@, np as int)) && np
                <= ws@.len(),
            None => dec_layer(ws@, pos as int) is None,
        },
{
    if pos >= ws.len() {
        return None;
    }
    let w = ws[pos];
    if w > (usize::MAX as u64) {
        return None;
    }
    let n = w as usize;
    let mut nodes: Vec<GraphNode> = Vec::new();
    let mut cur: usize = pos + 1;
    let mut i: usize = 0;
    proof {
        assert(nodes_view(nodes@) =~= Seq::<NodeV>::empty());
    }
    while i < n
        invariant
            i <= n,
            nodes@.len() == i,
            dec_node_items(ws@, pos as int + 1, i as int) == Some(
                (nodes_view(nodes@), cur as int),
            ),
            cur <= ws@.len(),
        decreases n - i,
    {
        let (nd, next) = match parse_node(ws, cur) {
            Some(x) => x,
            None => {
                proof {
                    lemma_node_items_fail(ws@, pos as int + 1, i as int, n as int, cur as int);
                }
                return None;
            },
        };
        let ghost nprev = nodes_view(nodes@);
        nodes.push(nd);
        proof {
            assert(nodes_view(nodes@) =~= nprev.push(nd@));
            assert(next as int <= ws@.len()) by {
                assert(dec_node(ws@, cur as int) is Some);
                let es = dec_edges(ws@, cur as int + 1)->Some_0;
            }
        }
        cur = next;
        i = i + 1;
    }
    Some((Layer { nodes }, cur))
}

proof fn lemma_layer_items_fail(ws: Seq<u64>, pos: int, i: int, n: int, cur: int)
    requires
        0 <= i < n,
        dec_layer_items(ws, pos, i) is Some,
        dec_layer_items(ws, pos, i)->Some_0.1 == cur,
        dec_layer(ws, cur) is None,
    ensures
        dec_layer_items(ws, pos, n) is None,
    decreases n - i,
{
    if n == i + 1 {
    } else {
        lemma_layer_items_fail(ws, pos, i, n - 1, cur);
    }
}

impl HNSW {
    /// Encode the whole index as its file bytes.
    #[verifier::rlimit(100)]
    pub fn serialize(&self) -> (r: Vec<u8>)
        ensures
            r@ == bytes_of_words(enc_hnsw(self)),
            r@.len() % 8 == 0,
    {
        let mut ws: Vec<u64> = Vec::new();
        ws.push(INDEX_TAG);
        ws.push(self.size as u64);
        match self.entry_id {
            None => {
                ws.push(0);
            },
            Some(v) => {
                ws.push(1);
                ws.push(v);
            },
        }
        let ghost base1 = ws@;
        ws.push(self.thresholds.len() as u64);
        let mut i: usize = 0;
        while i < self.thresholds.len()
            invariant
                i <= self.thresholds@.len(),
                ws@ == base1 + seq![self.thresholds@.len() as u64] + self.thresholds@.take(
                    i as int,
                ),
            decreases self.thresholds@.len() - i,
        {
            ws.push(self.thresholds[i]);
            proof {
                assert(ws@ =~= base1 + seq![self.thresholds@.len() as u64]
                    + self.thresholds@.take(i as int + 1));
            }
            i = i + 1;
        }
        proof {
            assert(self.thresholds@.take(self.thresholds@.len() as int) =~= self.thresholds@);
            assert(ws@ =~= base1 + enc_words_list(self.thresholds@));
        }
        let ghost base2 = ws@;
        ws.push(self.layers.len() as u64);
        let mut li: usize = 0;
        while li < self.layers.len()
            invariant
                li <= self.layers@.len(),
                ws@ == base2 + seq![self.layers@.len() as u64] + enc_layer_items(
                    layers_view(self.layers@).take(li as int),
                ),
            decreases self.layers@.len() - li,
        {
            // one layer: node count, then each node
            let layer = &self.layers[li];
            let ghost base3 = ws@;
            ws.push(layer.nodes.len() as u64);
            let mut ni: usize = 0;
            while ni < layer.nodes.len()
                invariant
                    ni <= layer.nodes@.len(),
                    ws@ == base3 + seq![layer.nodes@.len() as u64] + enc_node_items(
                        nodes_view(layer.nodes@).take(ni as int),
                    ),
                decreases layer.nodes@.len() - ni,
            {
                let node = &layer.nodes[ni];
                let ghost base4 = ws@;
                ws.push(node.id);
                ws.push(node.neighbors.len() as u64);
                let mut ei: usize = 0;
                while ei < node.neighbors.len()
                    invariant
                        ei <= node.neighbors@.len(),
                        ws@ == base4 + seq![node@.id, node.neighbors@.len() as u64] + Seq::new(
                            2 * ei as nat,
                            |x: int|
                                if x % 2 == 0 {
                                    node.neighbors@[x / 2].0
                                } else {
                                    node.neighbors@[x / 2].1 as u64
                                },
                        ),
                    decreases node.neighbors@.len() - ei,
                {
                    ws.push(node.neighbors[ei].0);
                    ws.push(node.neighbors[ei].1 as u64);
                    proof {
                        assert(ws@ =~= base4 + seq![node@.id, node.neighbors@.len() as u64]
                            + Seq::new(
                            2 * (ei as nat + 1),
                            |x: int|
                                if x % 2 == 0 {
                                    node.neighbors@[x / 2].0
                                } else {
                                    node.neighbors@[x / 2].1 as u64
                                },
                        ));
                    }
                    ei = ei + 1;
                }
                proof {
                    assert(ws@ =~= base4 + enc_node(node@));
                    let nv = nodes_view(layer.nodes@);
                    assert(nv.take(ni as int + 1).drop_last() =~= nv.take(ni as int));
                    assert(nv.take(ni as int + 1).last() == nv[ni as int]);
                    assert(nv[ni as int] == layer.nodes@[ni as int]@);
                    assert(ws@ =~= base3 + seq![layer.nodes@.len() as u64] + enc_node_items(
                        nv.take(ni as int + 1),
                    ));
                }
                ni = ni + 1;
            }
            proof {
                let nv = nodes_view(layer.nodes@);
                assert(nv.take(nv.len() as int) =~= nv);
                assert(ws@ =~= base3 + enc_layer(layer@));
                let lv = layers_view(self.layers@);
                assert(lv.take(li as int + 1).drop_last() =~= lv.take(li as int));
                assert(lv.take(li as int + 1).last() == lv[li as int]);
                assert(lv[li as int] == self.layers@[li as int]@);
                assert(ws@ =~= base2 + seq![self.layers@.len() as u64] + enc_layer_items(
                    lv.take(li as int + 1),
                ));
            }
            li = li + 1;
        }
        proof {
            let lv = layers_view(self.layers@);
            assert(lv.take(lv.len() as int) =~= lv);
            assert(ws@ =~= enc_hnsw(self));
            lemma_bytes_words_rt(ws@);
        }
        words_to_bytes(&ws)
    }

    /// Decode an index from its file bytes and check its invariants.
    ///
    /// Fails with `Corrupt` exactly when the bytes are not a whole number
    /// of words, do not start with an encoded index (too-short payloads
    /// included), or decode to layers with duplicate node ids.
    #[verifier::rlimit(100)]
    pub fn deserialize(bytes: &Vec<u8>) -> (r: Result<HNSW, StoreError>)
        ensures
            match r {
                Ok(h) => h.wf() && index_decodes_to(bytes@, &h),
                Err(e) => e == StoreError::Corrupt && index_decode_fails(bytes@),
            },
    {
        let ws = match bytes_to_words(bytes) {
            Ok(ws) => ws,
            Err(_) => {
                return Err(StoreError::Corrupt);
            },
        };
        if ws.len() < 2 {
            return Err(StoreError::Corrupt);
        }
        if ws[0] != INDEX_TAG {
            return Err(StoreError::Corrupt);
        }
        let size64 = ws[1];
        if size64 > (usize::MAX as u64) || size64 > (u32::MAX as u64) {
            return Err(StoreError::Corrupt);
        }
        let size = size64 as u32;
        let (entry_id, p2) = match {
            if 2 >= ws.len() {
                None
            } else if ws[2] == 0 {
                Some((None, 3usize))
            } else if ws[2] == 1 && ws.len() - 2 >= 2 {
                Some((Some(ws[3]), 4usize))
            } else {
                None
            }
        } {
            Some(x) => x,
            None => {
                return Err(StoreError::Corrupt);
            },
        };
        proof {
            assert(dec_opt_u64(ws@, 2) == Some((entry_id, p2 as int)));
        }
        // thresholds
        if p2 >= ws.len() {
            return Err(StoreError::Corrupt);
        }
        let tw = ws[p2];
        if tw > (usize::MAX as u64) {
            return Err(StoreError::Corrupt);
        }
        let tn = tw as usize;
        if tn > ws.len() - p2 - 1 {
            return Err(StoreError::Corrupt);
        }
        let mut thresholds: Vec<u64> = Vec::new();
        let mut i: usize = 0;
        while i < tn
            invariant
                i <= tn,
                p2 + 1 + tn <= ws@.len(),
                thresholds@.len() == i,
                forall|j: int| 0 <= j < i ==> #[trigger] thresholds@[j] == ws@[p2 + 1 + j],
            decreases tn - i,
        {
            thresholds.push(ws[p2 + 1 + i]);
            i = i + 1;
        }
        let p3 = p2 + 1 + tn;
        proof {
            assert(thresholds@ =~= ws@.subrange(p2 as int + 1, p2 as int + 1 + tn as int));
            assert(dec_words_list(ws@, p2 as int) == Some((thresholds@, p3 as int)));
        }
        // layers
        if p3 >= ws.len() {
            return Err(StoreError::Corrupt);
        }
        let lw = ws[p3];
        if lw > (usize::MAX as u64) {
            return Err(StoreError::Corrupt);
        }
        let ln = lw as usize;
        let mut layers: Vec<Layer> = Vec::new();
        let mut cur: usize = p3 + 1;
        let mut li: usize = 0;
        proof {
            assert(layers_view(layers@) =~= Seq::<Seq<NodeV>>::empty());
        }
        while li < ln
            invariant
                li <= ln,
                layers@.len() == li,
                dec_layer_items(ws@, p3 as int + 1, li as int) == Some(
                    (layers_view(layers@), cur as int),
                ),
                cur <= ws@.len(),
            decreases ln - li,
        {
            let (layer, next) = match parse_layer(&ws, cur) {
                Some(x) => x,
                None => {
                    proof {
                        lemma_layer_items_fail(ws@, p3 as int + 1, li as int, ln as int, cur as int);
                    }
                    return Err(StoreError::Corrupt);
                },
            };
            let ghost lprev = layers_view(layers@);
            layers.push(layer);
            proof {
                assert(layers_view(layers@) =~= lprev.push(layers@.last()@));
            }
            cur = next;
            li = li + 1;
        }
        let h = HNSW { size, layers, entry_id, thresholds };
        proof {
            assert(words_of_bytes(bytes@) == ws@);
            assert(h.v_layers() == layers_view(h.layers@));
            assert(dec_hnsw(ws@, 0) == Some(
                ((size64, entry_id, h.thresholds@, h.v_layers()), cur as int),
            ));
            assert(h.size == size64);
        }
        // the decoded graph must satisfy the index invariants
        let mut li: usize = 0;
        while li < h.layers.len()
            invariant
                li <= h.layers@.len(),
                forall|p: int| 0 <= p < li ==> layer_wf(#[trigger] h.v_layers()[p]),
            decreases h.layers@.len() - li,
        {
            let layer = &h.layers[li];
            let n = layer.nodes.len();
            let mut a: usize = 0;
            while a < n
                invariant
                    a <= n,
                    n == layer.nodes@.len(),
                    li < h.layers@.len(),
                    layer == h.layers@[li as int],
                    forall|x: int, y: int|
                        0 <= x < y < n && x < a ==> (#[trigger] layer@[x]).id != (
                        #[trigger] layer@[y]).id,
                decreases n - a,
            {
                let mut b: usize = a + 1;
                while b < n
                    invariant
                        a < b <= n,
                        n == layer.nodes@.len(),
                        forall|y: int| a < y < b ==> (#[trigger] layer@[y]).id != layer@[a as int].id,
                    decreases n - b,
                {
                    if layer.nodes[b].id == layer.nodes[a].id {
                        proof {
                            assert(h.v_layers()[li as int] == layer@);
                            assert(layer@[a as int].id == layer@[b as int].id);
                            assert(!layer_wf(h.v_layers()[li as int]));
                            assert(!decoded_index_wf(entry_id, h.v_layers()));
                        }
                        return Err(StoreError::Corrupt);
                    }
                    b = b + 1;
                }
                a = a + 1;
            }
            proof {
                assert(layer_wf(layer@));
                assert(h.v_layers()[li as int] == layer@);
            }
            li = li + 1;
        }
        // an index with layers must carry an entry point
        match h.entry_id {
            Some(_) => {},
            None => {
                let mut li: usize = 0;
                while li < h.layers.len()
                    invariant
                        li <= h.layers@.len(),
                        forall|p: int| 0 <= p < li ==> (#[trigger] h.v_layers()[p]).len() == 0,
                    decreases h.layers@.len() - li,
                {
                    if h.layers[li].nodes.len() > 0 {
                        proof {
                            assert(h.v_layers()[li as int] == h.layers@[li as int]@);
                            assert(h.v_layers()[li as int].len() > 0);
                            assert(!decoded_index_wf(entry_id, h.v_layers()));
                        }
                        return Err(StoreError::Corrupt);
                    }
                    proof {
                        assert(h.v_layers()[li as int] == h.layers@[li as int]@);
                    }
                    li = li + 1;
                }
            },
        }
        proof {
            assert(h.wf());
        }
        Ok(h)
    }
}

/// The codec round trip at file level, for block files: the bytes
/// `to_bytes` writes decode to exactly the block, consuming them all.
pub proof fn lemma_rt_block_file(b: BlockV)
    requires
        block_enc_ok(b),
    ensures
        dec_block(words_of_bytes(bytes_of_words(enc_block(b))), 0) == Some(
            (b, enc_block(b).len() as int),
        ),
        bytes_of_words(enc_block(b)).len() % 8 == 0,
{
    lemma_words_of_bytes_rt(enc_block(b));
    lemma_bytes_words_rt(enc_block(b));
    assert(enc_block(b).subrange(0, enc_block(b).len() as int) =~= enc_block(b));
    lemma_rt_block(b, enc_block(b), 0);
}

/// The codec round trip at file level, for index files: the bytes
/// `serialize` writes decode back to the index's fields, and a
/// well-formed index is never refused, so `deserialize` after `serialize`
/// returns the index exactly.
pub proof fn lemma_rt_index_file(h: &HNSW)
    requires
        h.wf(),
        layers_enc_ok(h.v_layers()),
        h.thresholds@.len() <= usize::MAX,
    ensures
        index_decodes_to(bytes_of_words(enc_hnsw(h)), h),
        !index_decode_fails(bytes_of_words(enc_hnsw(h))),
{
    lemma_words_of_bytes_rt(enc_hnsw(h));
    lemma_bytes_words_rt(enc_hnsw(h));
    assert(enc_hnsw(h).subrange(0, enc_hnsw(h).len() as int) =~= enc_hnsw(h));
    lemma_rt_hnsw(h, enc_hnsw(h), 0);
    assert(decoded_index_wf(h.entry_id, h.v_layers()));
}

} // verus!
