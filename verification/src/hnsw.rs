//! The multi-layer proximity graph (HNSW): build, insert, remove and
//! filtered top-k query.
//!
//! Layers are ordered sparse-to-dense: index zero is the top.  Each layer
//! maps an embedding id to its ordered neighbor list; every edge stores the
//! distance computed when it was created.  Edges are kept symmetric at
//! insertion time; removal erases both directions.

use vstd::prelude::*;

use crate::cache::EmbeddingCache;
use crate::embedding::{distance, spec_distance, Embedding, EmbeddingView};
use crate::error::StoreError;
use crate::store::BlockStore;
use crate::text::{split_tokens, string_from_chars, string_to_chars, tokenize};
use crate::{DEFAULT_EF, UNIT};

verus! {

/// How a filter compares against a metadata tag.
#[derive(Clone, Copy, Debug, PartialEq, Eq, Structural)]
pub enum FilterComparator {
    Equal,
    NotEqual,
}

/// One query filter: a comparator and the value it holds tags against.
#[derive(Debug)]
pub struct Filter {
    pub comparator: FilterComparator,
    pub value: String,
}

/// Whether one tag satisfies one filter.
pub open spec fn filter_matches(c: FilterComparator, value: Seq<char>, tag: Seq<char>) -> bool {
    match c {
        FilterComparator::Equal => tag == value,
        FilterComparator::NotEqual => tag != value,
    }
}

/// A candidate passes when every filter accepts every one of its tags.
pub open spec fn passes_filters(e: EmbeddingView, filters: Seq<Filter>) -> bool {
    forall|f: int, t: int|
        0 <= f < filters.len() && 0 <= t < e.source_file.meta.len() ==> filter_matches(
            (#[trigger] filters[f]).comparator,
            filters[f].value@,
            #[trigger] e.source_file.meta[t],
        )
}

impl Filter {
    /// Parse a filter from its text form: a comparator token (`eq` or
    /// `ne`) and a value token.
    pub fn from_string(input: &String) -> (r: Result<Self, StoreError>)
        ensures
            ({
                let tk = split_tokens(input@, false);
                match r {
                    Ok(f) => tk.len() == 2 && f.value@ == tk[1] && ((tk[0] == "eq"@
                        && f.comparator == FilterComparator::Equal) || (tk[0] == "ne"@
                        && f.comparator == FilterComparator::NotEqual)),
                    Err(e) => e == StoreError::InvalidArgument && (tk.len() != 2 || (tk[0]
                        != "eq"@ && tk[0] != "ne"@)),
                }
            }),
    {
        proof {
            reveal_strlit("eq");
            reveal_strlit("ne");
        }
        let chars = string_to_chars(input.as_str());
        let parts = tokenize(&chars, false);
        if parts.len() != 2 {
            return Err(StoreError::InvalidArgument);
        }
        let ghost tk = split_tokens(input@, false);
        proof {
            assert(tk[0] == parts@[0]@);
            assert(tk[1] == parts@[1]@);
        }
        let cmp_tok = &parts[0];
        let comparator = if cmp_tok.len() == 2 && cmp_tok[0] == 'e' && cmp_tok[1] == 'q' {
            proof {
                assert(cmp_tok@ =~= "eq"@);
            }
            FilterComparator::Equal
        } else if cmp_tok.len() == 2 && cmp_tok[0] == 'n' && cmp_tok[1] == 'e' {
            proof {
                assert(cmp_tok@ =~= "ne"@);
            }
            FilterComparator::NotEqual
        } else {
            proof {
                if cmp_tok@ == "eq"@ {
                    assert(cmp_tok@.len() == 2 && cmp_tok@[0] == 'e' && cmp_tok@[1] == 'q');
                }
                if cmp_tok@ == "ne"@ {
                    assert(cmp_tok@.len() == 2 && cmp_tok@[0] == 'n' && cmp_tok@[1] == 'e');
                }
            }
            return Err(StoreError::InvalidArgument);
        };
        let value = string_from_chars(&parts[1]);
        Ok(Filter { comparator, value })
    }

    /// Whether one tag satisfies this filter.
    pub fn compare(self: &Self, query: &str) -> (r: bool)
        ensures
            r == filter_matches(self.comparator, self.value@, query@),
    {
        let same = crate::text::str_eq(query, self.value.as_str());
        match self.comparator {
            FilterComparator::Equal => same,
            FilterComparator::NotEqual => !same,
        }
    }
}

/// Whether an embedding passes every filter against every one of its tags.
pub fn embedding_passes(e: &Embedding, filters: &Vec<Filter>) -> (r: bool)
    ensures
        r == passes_filters(e@, filters@),
{
    let nf = filters.len();
    let mut f: usize = 0;
    while f < nf
        invariant
            f <= nf,
            nf == filters@.len(),
            forall|x: int, t: int|
                0 <= x < f && 0 <= t < e@.source_file.meta.len() ==> filter_matches(
                    (#[trigger] filters@[x]).comparator,
                    filters@[x].value@,
                    #[trigger] e@.source_file.meta[t],
                ),
        decreases nf - f,
    {
        let nt = e.source_file.meta.len();
        let mut t: usize = 0;
        while t < nt
            invariant
                t <= nt,
                f < nf,
                nf == filters@.len(),
                nt == e@.source_file.meta.len(),
                forall|x: int, t2: int|
                    0 <= x < f && 0 <= t2 < e@.source_file.meta.len() ==> filter_matches(
                        (#[trigger] filters@[x]).comparator,
                        filters@[x].value@,
                        #[trigger] e@.source_file.meta[t2],
                    ),
                forall|t2: int|
                    0 <= t2 < t ==> filter_matches(
                        filters@[f as int].comparator,
                        filters@[f as int].value@,
                        #[trigger] e@.source_file.meta[t2],
                    ),
            decreases nt - t,
        {
            proof {
                assert(e@.source_file.meta[t as int] == e.source_file.meta@[t as int]@);
            }
            if !filters[f].compare(e.source_file.meta[t].as_str()) {
                return false;
            }
            t = t + 1;
        }
        f = f + 1;
    }
    true
}

/// A query: the (already normalized) embedding plus its filters.
#[derive(Debug)]
pub struct Query {
    pub embedding: Embedding,
    pub filters: Vec<Filter>,
}

/// One node of a layer: an id and its ordered neighbor list, each edge
/// carrying the distance frozen at edge time.
#[derive(Debug)]
pub struct GraphNode {
    pub id: u64,
    pub neighbors: Vec<(u64, i64)>,
}

/// Mathematical image of a node.
#[verifier::ext_equal]
pub ghost struct NodeV {
    pub id: u64,
    pub neighbors: Seq<(u64, i64)>,
}

impl View for GraphNode {
    type V = NodeV;

    open spec fn view(&self) -> NodeV {
        NodeV { id: self.id, neighbors: self.neighbors@ }
    }
}

/// One layer of the graph.
#[derive(Debug)]
pub struct Layer {
    pub nodes: Vec<GraphNode>,
}

/// The images of a layer's nodes.
pub open spec fn nodes_view(ns: Seq<GraphNode>) -> Seq<NodeV> {
    Seq::new(ns.len(), |i: int| ns[i]@)
}

impl View for Layer {
    type V = Seq<NodeV>;

    open spec fn view(&self) -> Seq<NodeV> {
        nodes_view(self.nodes@)
    }
}

/// An edge list with every edge into `target` dropped.
pub open spec fn edges_without(ns: Seq<(u64, i64)>, target: u64) -> Seq<(u64, i64)>
    decreases ns.len(),
{
    if ns.len() == 0 {
        Seq::empty()
    } else {
        let rest = edges_without(ns.drop_last(), target);
        if ns.last().0 == target {
            rest
        } else {
            rest.push(ns.last())
        }
    }
}

/// Dropping one target's edges cannot introduce edges into another id.
pub proof fn lemma_edges_without_free(ns: Seq<(u64, i64)>, target: u64, x: u64)
    requires
        forall|j: int| 0 <= j < ns.len() ==> (#[trigger] ns[j]).0 != x,
    ensures
        forall|j: int|
            0 <= j < edges_without(ns, target).len() ==> (#[trigger] edges_without(ns, target)[j]).0
                != x,
    decreases ns.len(),
{
    if ns.len() > 0 {
        assert(forall|j: int|
            0 <= j < ns.drop_last().len() ==> (#[trigger] ns.drop_last()[j]).0 != x);
        lemma_edges_without_free(ns.drop_last(), target, x);
        let rest = edges_without(ns.drop_last(), target);
        assert forall|j: int|
            0 <= j < edges_without(ns, target).len() implies (#[trigger] edges_without(
            ns,
            target,
        )[j]).0 != x by {
            if ns.last().0 == target {
            } else if j < rest.len() {
                assert(edges_without(ns, target)[j] == rest[j]);
            } else {
                assert(edges_without(ns, target)[j] == ns.last());
            }
        }
    }
}

/// Dropping a target's edges leaves no edge into it.
pub proof fn lemma_edges_without_drops(ns: Seq<(u64, i64)>, target: u64)
    ensures
        forall|j: int|
            0 <= j < edges_without(ns, target).len() ==> (#[trigger] edges_without(ns, target)[j]).0
                != target,
    decreases ns.len(),
{
    if ns.len() > 0 {
        lemma_edges_without_drops(ns.drop_last(), target);
        let rest = edges_without(ns.drop_last(), target);
        assert forall|j: int|
            0 <= j < edges_without(ns, target).len() implies (#[trigger] edges_without(
            ns,
            target,
        )[j]).0 != target by {
            if ns.last().0 == target {
            } else if j < rest.len() {
                assert(edges_without(ns, target)[j] == rest[j]);
            } else {
                assert(edges_without(ns, target)[j] == ns.last());
            }
        }
    }
}

/// The neighbor list of the first node carrying `id`.
pub open spec fn neighbors_of(l: Seq<NodeV>, id: u64) -> Option<Seq<(u64, i64)>>
    decreases l.len(),
{
    if l.len() == 0 {
        None
    } else if l[0].id == id {
        Some(l[0].neighbors)
    } else {
        neighbors_of(l.drop_first(), id)
    }
}

/// The layer holds an edge `from -> (to, d)`.
pub open spec fn has_edge(l: Seq<NodeV>, from: u64, to: u64, d: i64) -> bool {
    match neighbors_of(l, from) {
        Some(ns) => exists|j: int| 0 <= j < ns.len() && ns[j] == (to, d),
        None => false,
    }
}

/// Node ids are unique within the layer.
pub open spec fn layer_wf(l: Seq<NodeV>) -> bool {
    forall|i: int, j: int| 0 <= i < j < l.len() ==> (#[trigger] l[i]).id != (#[trigger] l[j]).id
}

/// Edges ascending by distance, ties broken by id ascending.
pub open spec fn sorted_edges(ns: Seq<(u64, i64)>) -> bool {
    forall|k: int|
        0 <= k < ns.len() - 1 ==> ((#[trigger] ns[k]).1 < ns[k + 1].1 || (ns[k].1 == ns[k + 1].1
            && ns[k].0 <= ns[k + 1].0))
}

impl Layer {
    /// An empty layer.
    pub fn empty() -> (r: Layer)
        ensures
            r@.len() == 0,
            layer_wf(r@),
    {
        Layer { nodes: Vec::new() }
    }

    /// Index of the node carrying `id`, if present.
    fn index_of(&self, id: u64) -> (r: Option<usize>)
        ensures
            match r {
                Some(i) => i < self@.len() && self@[i as int].id == id && neighbors_of(self@, id)
                    == Some(self@[i as int].neighbors),
                None => neighbors_of(self@, id) is None,
            },
    {
        let n = self.nodes.len();
        let mut i: usize = 0;
        proof {
            assert(self@.skip(0) =~= self@);
        }
        while i < n
            invariant
                i <= n,
                n == self@.len(),
                neighbors_of(self@, id) == neighbors_of(self@.skip(i as int), id),
                forall|p: int| 0 <= p < i ==> (#[trigger] self@[p]).id != id,
            decreases n - i,
        {
            proof {
                assert(self@.skip(i as int)[0] == self@[i as int]);
                assert(self@.skip(i as int).drop_first() =~= self@.skip(i as int + 1));
            }
            if self.nodes[i].id == id {
                return Some(i);
            }
            i = i + 1;
        }
        proof {
            assert(self@.skip(n as int) =~= Seq::<NodeV>::empty());
        }
        None
    }

    /// The neighbor list of `id`, copied, if the node exists.
    pub fn get(&self, id: u64) -> (r: Option<Vec<(u64, i64)>>)
        ensures
            match r {
                Some(v) => neighbors_of(self@, id) == Some(v@),
                None => neighbors_of(self@, id) is None,
            },
    {
        match self.index_of(id) {
            Some(i) => Some(copy_edges(&self.nodes[i].neighbors)),
            None => None,
        }
    }

    /// Number of nodes.
    pub fn len(&self) -> (r: usize)
        ensures
            r == self@.len(),
    {
        self.nodes.len()
    }

    /// Erase `target` as a key and as a neighbor everywhere.
    fn purge(&mut self, target: u64)
        requires
            layer_wf(old(self)@),
        ensures
            layer_wf(final(self)@),
            final(self)@.len() <= old(self)@.len(),
            neighbors_of(final(self)@, target) is None,
            forall|id: u64|
                id != target ==> #[trigger] neighbors_of(final(self)@, id) == (match neighbors_of(
                    old(self)@,
                    id,
                ) {
                    Some(ns) => Some(edges_without(ns, target)),
                    None => None::<Seq<(u64, i64)>>,
                }),
    {
        // drop the target node itself
        let ghost l0 = self@;
        let mut idx: usize = 0;
        while idx < self.nodes.len()
            invariant
                idx <= self@.len(),
                self@.len() <= l0.len(),
                layer_wf(self@),
                forall|p: int| 0 <= p < idx ==> (#[trigger] self@[p]).id != target,
                forall|id: u64|
                    #[trigger] neighbors_of(self@, id) == neighbors_of(l0, id) || (id == target
                        && neighbors_of(self@, id) is None),
            decreases self@.len() - idx,
        {
            if self.nodes[idx].id == target {
                let ghost prev = self@;
                self.nodes.remove(idx);
                proof {
                    assert(nodes_view(self.nodes@) =~= prev.remove(idx as int));
                    lemma_neighbors_remove(prev, idx as int);
                    assert(forall|p: int| 0 <= p < idx ==> self@[p] == prev[p]);
                }
            } else {
                idx = idx + 1;
            }
        }
        // erase edges into the target
        let n = self.nodes.len();
        let ghost mid = self@;
        let mut i: usize = 0;
        while i < n
            invariant
                i <= n,
                n == self@.len(),
                self@.len() == mid.len(),
                forall|p: int| 0 <= p < n ==> (#[trigger] self@[p]).id == mid[p].id,
                forall|p: int|
                    0 <= p < i ==> (#[trigger] self@[p]).neighbors == edges_without(
                        mid[p].neighbors,
                        target,
                    ),
                forall|p: int| i <= p < n ==> (#[trigger] self@[p]).neighbors == mid[p].neighbors,
            decreases n - i,
        {
            let node = &self.nodes[i];
            let mut kept: Vec<(u64, i64)> = Vec::new();
            let m = node.neighbors.len();
            let mut j: usize = 0;
            while j < m
                invariant
                    j <= m,
                    i < n,
                    n == self@.len(),
                    m == self@[i as int].neighbors.len(),
                    self@[i as int].neighbors == mid[i as int].neighbors,
                    kept@ == edges_without(mid[i as int].neighbors.take(j as int), target),
                decreases m - j,
            {
                let e = self.nodes[i].neighbors[j];
                proof {
                    assert(mid[i as int].neighbors.take(j as int + 1).drop_last()
                        =~= mid[i as int].neighbors.take(j as int));
                    assert(mid[i as int].neighbors.take(j as int + 1).last()
                        == mid[i as int].neighbors[j as int]);
                }
                if e.0 != target {
                    kept.push(e);
                }
                j = j + 1;
            }
            let nid = self.nodes[i].id;
            let ghost before = self@;
            self.nodes.set(i, GraphNode { id: nid, neighbors: kept });
            proof {
                assert(mid[i as int].neighbors.take(m as int) =~= mid[i as int].neighbors);
                assert(forall|p: int| 0 <= p < n && p != i ==> #[trigger] self@[p] == before[p]);
                assert(self@[i as int].id == mid[i as int].id);
                assert(self@[i as int].neighbors == edges_without(
                    mid[i as int].neighbors,
                    target,
                ));
            }
            i = i + 1;
        }
        proof {
            assert(layer_wf(self@));
            assert forall|id: u64| id != target implies #[trigger] neighbors_of(self@, id) == (
            match neighbors_of(mid, id) {
                Some(ns) => Some(edges_without(ns, target)),
                None => None::<Seq<(u64, i64)>>,
            }) by {
                lemma_neighbors_pointwise(mid, self@, id, target);
            }
            assert(neighbors_of(self@, target) is None) by {
                if neighbors_of(mid, target) is None {
                    lemma_neighbors_none(self@, target);
                } else {
                    assert(false) by {
                        lemma_neighbors_some_member(mid, target);
                    }
                }
            }
        }
    }
}

/// A copied edge list.
pub fn copy_edges(v: &Vec<(u64, i64)>) -> (r: Vec<(u64, i64)>)
    ensures
        r@ == v@,
{
    let mut out: Vec<(u64, i64)> = Vec::new();
    let mut i: usize = 0;
    while i < v.len()
        invariant
            i <= v@.len(),
            out@ == v@.take(i as int),
        decreases v@.len() - i,
    {
        out.push(v[i]);
        proof {
            assert(out@ =~= v@.take(i as int + 1));
        }
        i = i + 1;
    }
    proof {
        assert(out@ =~= v@);
    }
    out
}

/// Removing a node keeps every other lookup.
proof fn lemma_neighbors_remove(l: Seq<NodeV>, idx: int)
    requires
        0 <= idx < l.len(),
        layer_wf(l),
    ensures
        layer_wf(l.remove(idx)),
        forall|id: u64|
            id != l[idx].id ==> #[trigger] neighbors_of(l.remove(idx), id) == neighbors_of(l, id),
        neighbors_of(l.remove(idx), l[idx].id) is None,
    decreases l.len(),
{
    let r = l.remove(idx);
    assert forall|p: int| 0 <= p < r.len() implies (#[trigger] r[p]).id != l[idx].id by {
        if p < idx {
            assert(r[p] == l[p]);
        } else {
            assert(r[p] == l[p + 1]);
        }
    }
    lemma_neighbors_none(r, l[idx].id);
    if idx == 0 {
        assert(r =~= l.drop_first());
        assert forall|id: u64| id != l[0].id implies #[trigger] neighbors_of(r, id)
            == neighbors_of(l, id) by {}
    } else {
        assert(r[0] == l[0]);
        assert(r.drop_first() =~= l.drop_first().remove(idx - 1));
        assert(forall|p: int| 1 <= p < l.len() ==> l[p] == #[trigger] l.drop_first()[p - 1]);
        lemma_neighbors_remove(l.drop_first(), idx - 1);
        assert forall|id: u64| id != l[idx].id implies #[trigger] neighbors_of(r, id)
            == neighbors_of(l, id) by {
            if l[0].id != id {
                assert(neighbors_of(l.drop_first().remove(idx - 1), id) == neighbors_of(
                    l.drop_first(),
                    id,
                ));
            }
        }
    }
}

/// If an id is a key, its node is listed.
pub proof fn lemma_neighbors_some_member(l: Seq<NodeV>, id: u64)
    requires
        neighbors_of(l, id) is Some,
    ensures
        exists|p: int| 0 <= p < l.len() && (#[trigger] l[p]).id == id,
    decreases l.len(),
{
    if l.len() > 0 && l[0].id != id {
        lemma_neighbors_some_member(l.drop_first(), id);
        let p0 = choose|p: int|
            0 <= p < l.drop_first().len() && (#[trigger] l.drop_first()[p]).id == id;
        assert(l[p0 + 1].id == id);
    }
}

/// If no node carries an id, lookups return nothing.
proof fn lemma_neighbors_none(l: Seq<NodeV>, id: u64)
    requires
        forall|p: int| 0 <= p < l.len() ==> (#[trigger] l[p]).id != id,
    ensures
        neighbors_of(l, id) is None,
    decreases l.len(),
{
    if l.len() > 0 {
        assert(forall|p: int|
            0 <= p < l.drop_first().len() ==> (#[trigger] l.drop_first()[p]).id != id);
        lemma_neighbors_none(l.drop_first(), id);
    }
}

/// Two layers with the same keys in the same order, where the second's
/// lists are the first's filtered: lookups line up.
proof fn lemma_neighbors_pointwise(a: Seq<NodeV>, b: Seq<NodeV>, id: u64, target: u64)
    requires
        a.len() == b.len(),
        forall|p: int| 0 <= p < a.len() ==> (#[trigger] b[p]).id == a[p].id,
        forall|p: int|
            0 <= p < a.len() ==> (#[trigger] b[p]).neighbors == edges_without(
                a[p].neighbors,
                target,
            ),
    ensures
        neighbors_of(b, id) == (match neighbors_of(a, id) {
            Some(ns) => Some(edges_without(ns, target)),
            None => None::<Seq<(u64, i64)>>,
        }),
    decreases a.len(),
{
    if a.len() > 0 {
        assert(b[0].id == a[0].id);
        if a[0].id == id {
            assert(b[0].neighbors == edges_without(a[0].neighbors, target));
        } else {
            assert(forall|p: int|
                1 <= p < a.len() ==> a[p] == #[trigger] a.drop_first()[p - 1]);
            assert(forall|p: int|
                1 <= p < b.len() ==> b[p] == #[trigger] b.drop_first()[p - 1]);
            assert(forall|p: int|
                0 <= p < a.drop_first().len() ==> (#[trigger] b.drop_first()[p]).id
                    == a.drop_first()[p].id);
            assert(forall|p: int|
                0 <= p < a.drop_first().len() ==> (#[trigger] b.drop_first()[p]).neighbors
                    == edges_without(a.drop_first()[p].neighbors, target));
            lemma_neighbors_pointwise(a.drop_first(), b.drop_first(), id, target);
        }
    }
}

/// Appending a node: existing keys keep their lists; a fresh key becomes
/// visible.
proof fn lemma_neighbors_push(l: Seq<NodeV>, x: NodeV)
    ensures
        forall|id: u64|
            #[trigger] neighbors_of(l.push(x), id) == (if neighbors_of(l, id) is Some {
                neighbors_of(l, id)
            } else if x.id == id {
                Some(x.neighbors)
            } else {
                None::<Seq<(u64, i64)>>
            }),
    decreases l.len(),
{
    let p = l.push(x);
    if l.len() == 0 {
        assert(p.drop_first() =~= Seq::<NodeV>::empty());
        assert(p[0] == x);
        assert forall|id: u64| true implies #[trigger] neighbors_of(p, id) == (if neighbors_of(
            l,
            id,
        ) is Some {
            neighbors_of(l, id)
        } else if x.id == id {
            Some(x.neighbors)
        } else {
            None::<Seq<(u64, i64)>>
        }) by {
            assert(neighbors_of(Seq::<NodeV>::empty(), id) is None);
        }
    } else {
        assert(p[0] == l[0]);
        assert(p.drop_first() =~= l.drop_first().push(x));
        lemma_neighbors_push(l.drop_first(), x);
        assert forall|id: u64| true implies #[trigger] neighbors_of(p, id) == (if neighbors_of(
            l,
            id,
        ) is Some {
            neighbors_of(l, id)
        } else if x.id == id {
            Some(x.neighbors)
        } else {
            None::<Seq<(u64, i64)>>
        }) by {
            if l[0].id != id {
                assert(neighbors_of(l.drop_first().push(x), id) == (if neighbors_of(
                    l.drop_first(),
                    id,
                ) is Some {
                    neighbors_of(l.drop_first(), id)
                } else if x.id == id {
                    Some(x.neighbors)
                } else {
                    None::<Seq<(u64, i64)>>
                }));
            }
        }
    }
}

/// Replacing the node at a position (keeping its id) rebinds that key and
/// leaves the rest alone.
proof fn lemma_neighbors_update(l: Seq<NodeV>, i: int, x: NodeV)
    requires
        0 <= i < l.len(),
        l[i].id == x.id,
        forall|p: int| 0 <= p < i ==> (#[trigger] l[p]).id != x.id,
    ensures
        neighbors_of(l.update(i, x), x.id) == Some(x.neighbors),
        forall|id: u64|
            id != x.id ==> #[trigger] neighbors_of(l.update(i, x), id) == neighbors_of(l, id),
    decreases l.len(),
{
    let u = l.update(i, x);
    if i == 0 {
        assert(u[0] == x);
        assert forall|id: u64| id != x.id implies #[trigger] neighbors_of(u, id) == neighbors_of(
            l,
            id,
        ) by {
            assert(u.drop_first() =~= l.drop_first());
        }
    } else {
        assert(u[0] == l[0]);
        assert(u.drop_first() =~= l.drop_first().update(i - 1, x));
        assert(forall|p: int| 1 <= p < l.len() ==> l[p] == #[trigger] l.drop_first()[p - 1]);
        lemma_neighbors_update(l.drop_first(), i - 1, x);
        assert forall|id: u64| id != x.id implies #[trigger] neighbors_of(u, id) == neighbors_of(
            l,
            id,
        ) by {
            if l[0].id != id {
                assert(neighbors_of(l.drop_first().update(i - 1, x), id) == neighbors_of(
                    l.drop_first(),
                    id,
                ));
            }
        }
    }
}

/// A searched edge endpoint: its distance to the query against the store's
/// value for its id.
pub open spec fn scored_against(store: &BlockStore, q: EmbeddingView, id: u64, d: i64) -> bool {
    match store.lookup(id) {
        Some(e) => d == spec_distance(q.data, e.data),
        None => false,
    }
}

/// Every candidate of a search pool is scored against the store.
pub open spec fn pool_scored(store: &BlockStore, q: EmbeddingView, pool: Seq<(i64, u64)>) -> bool {
    forall|k: int| 0 <= k < pool.len() ==> scored_against(store, q, (#[trigger] pool[k]).1, pool[k].0)
}

/// Every edge target of the layer resolves through the store.
pub open spec fn targets_resolve(l: Seq<NodeV>, store: &BlockStore) -> bool {
    forall|p: int, j: int|
        0 <= p < l.len() && 0 <= j < l[p].neighbors.len() ==> store.lookup(
            (#[trigger] l[p].neighbors[j]).0,
        ) is Some
}

/// `id` appears as an edge target somewhere in the layer.
pub open spec fn layer_edge_target(l: Seq<NodeV>, id: u64) -> bool {
    exists|p: int, j: int|
        0 <= p < l.len() && 0 <= j < l[p].neighbors.len() && (#[trigger] l[p].neighbors[j]).0 == id
}

/// Every pool member is the entry id or an edge target of the layer.
pub open spec fn pool_referenced(l: Seq<NodeV>, entry_id: u64, pool: Seq<(i64, u64)>) -> bool {
    forall|k: int|
        0 <= k < pool.len() ==> ((#[trigger] pool[k]).1 == entry_id || layer_edge_target(
            l,
            pool[k].1,
        ))
}

/// A found neighbor list is some listed node's, verbatim.
proof fn lemma_neighbors_payload(l: Seq<NodeV>, id: u64)
    requires
        neighbors_of(l, id) is Some,
    ensures
        exists|p: int|
            0 <= p < l.len() && (#[trigger] l[p]).id == id && l[p].neighbors == neighbors_of(
                l,
                id,
            )->Some_0,
    decreases l.len(),
{
    if l.len() > 0 && l[0].id != id {
        lemma_neighbors_payload(l.drop_first(), id);
        let p0 = choose|p: int|
            0 <= p < l.drop_first().len() && (#[trigger] l.drop_first()[p]).id == id
                && l.drop_first()[p].neighbors == neighbors_of(l.drop_first(), id)->Some_0;
        assert(l[p0 + 1] == l.drop_first()[p0]);
    }
}

/// The neighbor list `t` had before the insertion, or empty when `t` was
/// not a key of the layer.
pub open spec fn prior_edges(old_l: Seq<NodeV>, t: u64) -> Seq<(u64, i64)> {
    match neighbors_of(old_l, t) {
        Some(ns) => ns,
        None => Seq::empty(),
    }
}

/// `t`'s list after the insertion of `qid` is its old list, verbatim and
/// in place, with only back-edges to `qid` appended after it, each
/// mirroring an entry `(t, d)` of the new node's own list `nl`.
pub open spec fn back_linked(
    old_l: Seq<NodeV>,
    new_l: Seq<NodeV>,
    qid: u64,
    nl: Seq<(u64, i64)>,
    t: u64,
) -> bool {
    match neighbors_of(new_l, t) {
        Some(ns) => {
            &&& ns.len() > prior_edges(old_l, t).len()
            &&& ns.take(prior_edges(old_l, t).len() as int) == prior_edges(old_l, t)
            &&& forall|m: int|
                prior_edges(old_l, t).len() <= m < ns.len() ==> ((#[trigger] ns[m]).0 == qid
                    && nl.contains((t, ns[m].1)))
        },
        None => false,
    }
}

/// What one layer looks like after `query` was inserted into it: an empty
/// layer becomes the singleton node; otherwise the new node's list is
/// sorted, capped at `ef`, scored against the store, drawn from the entry
/// point and the old layer's edges, back-linked by appending to each
/// neighbor's old list, and every unrelated node is untouched.
pub open spec fn layer_inserted(
    old_l: Seq<NodeV>,
    new_l: Seq<NodeV>,
    store: &BlockStore,
    q: EmbeddingView,
    entry_id: u64,
    ef: int,
) -> bool {
    if old_l.len() == 0 {
        new_l.len() == 1 && new_l[0].id == q.id && new_l[0].neighbors.len() == 0
    } else {
        match neighbors_of(new_l, q.id) {
            Some(nl) => {
                &&& sorted_edges(nl)
                &&& nl.len() <= ef
                &&& forall|k: int|
                    0 <= k < nl.len() ==> scored_against(store, q, (#[trigger] nl[k]).0, nl[k].1)
                &&& forall|k: int|
                    0 <= k < nl.len() ==> ((#[trigger] nl[k]).0 == entry_id || layer_edge_target(
                        old_l,
                        nl[k].0,
                    ))
                &&& forall|k: int|
                    0 <= k < nl.len() ==> has_edge(new_l, (#[trigger] nl[k]).0, q.id, nl[k].1)
                &&& forall|k: int|
                    0 <= k < nl.len() ==> ((#[trigger] nl[k]).0 == q.id || back_linked(
                        old_l,
                        new_l,
                        q.id,
                        nl,
                        nl[k].0,
                    ))
                &&& forall|id: u64|
                    id != q.id && (forall|k: int| 0 <= k < nl.len() ==> (#[trigger] nl[k]).0 != id)
                        ==> #[trigger] neighbors_of(new_l, id) == neighbors_of(old_l, id)
            },
            None => false,
        }
    }
}

/// Every edge has its mirror: `a -> (b, d)` stands only alongside
/// `b -> (a, d)`.
pub open spec fn layer_symmetric(l: Seq<NodeV>) -> bool {
    forall|a: u64, b: u64, d: i64| #[trigger] has_edge(l, a, b, d) ==> has_edge(l, b, a, d)
}

/// An edge of the old layer survives the insertion of a node that was not
/// yet a key: touched lists keep their old edges as a prefix.
proof fn lemma_edge_survives(
    old_l: Seq<NodeV>,
    new_l: Seq<NodeV>,
    store: &BlockStore,
    q: EmbeddingView,
    eid: u64,
    ef: int,
    x: u64,
    y: u64,
    d: i64,
)
    requires
        old_l.len() > 0,
        layer_inserted(old_l, new_l, store, q, eid, ef),
        neighbors_of(old_l, q.id) is None,
        has_edge(old_l, x, y, d),
    ensures
        has_edge(new_l, x, y, d),
{
    assert(neighbors_of(old_l, x) is Some);
    assert(x != q.id);
    let nl = neighbors_of(new_l, q.id)->Some_0;
    if exists|k: int| 0 <= k < nl.len() && (#[trigger] nl[k]).0 == x {
        let kw = choose|k: int| 0 <= k < nl.len() && (#[trigger] nl[k]).0 == x;
        assert(back_linked(old_l, new_l, q.id, nl, x));
        let ons = neighbors_of(old_l, x)->Some_0;
        let ns = neighbors_of(new_l, x)->Some_0;
        assert(prior_edges(old_l, x) == ons);
        let j = choose|j: int| 0 <= j < ons.len() && ons[j] == (y, d);
        assert(ns.take(ons.len() as int)[j] == ns[j]);
        assert(ns[j] == (y, d));
    } else {
        assert(forall|k: int| 0 <= k < nl.len() ==> (#[trigger] nl[k]).0 != x);
        assert(neighbors_of(new_l, x) == neighbors_of(old_l, x));
    }
}

/// Inserting a node that was not yet a key of the layer keeps the edge
/// set symmetric: the new node's list is mirrored entry by entry by the
/// appended back-edges, and every prior mirror pair survives verbatim.
pub proof fn lemma_insert_preserves_symmetry(
    old_l: Seq<NodeV>,
    new_l: Seq<NodeV>,
    store: &BlockStore,
    q: EmbeddingView,
    eid: u64,
    ef: int,
)
    requires
        layer_inserted(old_l, new_l, store, q, eid, ef),
        layer_symmetric(old_l),
        neighbors_of(old_l, q.id) is None,
    ensures
        layer_symmetric(new_l),
{
    if old_l.len() == 0 {
        assert forall|a: u64, b: u64, d: i64| #[trigger] has_edge(new_l, a, b, d) implies has_edge(
            new_l,
            b,
            a,
            d,
        ) by {
            assert(new_l.drop_first() =~= Seq::<NodeV>::empty());
            if a == new_l[0].id {
                assert(neighbors_of(new_l, a) == Some(new_l[0].neighbors));
                assert(new_l[0].neighbors.len() == 0);
            } else {
                assert(neighbors_of(new_l, a) == neighbors_of(new_l.drop_first(), a));
            }
            assert(!has_edge(new_l, a, b, d));
        }
    } else {
        let nl = neighbors_of(new_l, q.id)->Some_0;
        assert forall|a: u64, b: u64, d: i64| #[trigger] has_edge(new_l, a, b, d) implies has_edge(
            new_l,
            b,
            a,
            d,
        ) by {
            if has_edge(new_l, a, b, d) {
                if a == q.id {
                    let j = choose|j: int| 0 <= j < nl.len() && nl[j] == (b, d);
                    assert(has_edge(new_l, nl[j].0, q.id, nl[j].1));
                } else if exists|k2: int| 0 <= k2 < nl.len() && (#[trigger] nl[k2]).0 == a {
                    let kw = choose|k2: int| 0 <= k2 < nl.len() && (#[trigger] nl[k2]).0 == a;
                    assert(back_linked(old_l, new_l, q.id, nl, a));
                    let pe = prior_edges(old_l, a);
                    let ns = neighbors_of(new_l, a)->Some_0;
                    let j = choose|j: int| 0 <= j < ns.len() && ns[j] == (b, d);
                    if j < pe.len() {
                        assert(ns.take(pe.len() as int)[j] == ns[j]);
                        assert(pe[j] == (b, d));
                        assert(neighbors_of(old_l, a) is Some);
                        assert(has_edge(old_l, a, b, d));
                        assert(has_edge(old_l, b, a, d));
                        lemma_edge_survives(old_l, new_l, store, q, eid, ef, b, a, d);
                    } else {
                        assert(ns[j].0 == q.id && nl.contains((a, ns[j].1)));
                        assert(b == q.id);
                        assert(has_edge(new_l, q.id, a, d));
                    }
                } else {
                    assert(forall|k2: int| 0 <= k2 < nl.len() ==> (#[trigger] nl[k2]).0 != a);
                    assert(neighbors_of(new_l, a) == neighbors_of(old_l, a));
                    assert(has_edge(old_l, a, b, d));
                    assert(has_edge(old_l, b, a, d));
                    lemma_edge_survives(old_l, new_l, store, q, eid, ef, b, a, d);
                }
            }
        }
    }
}

/// Insert `query` into one layer using the ef-greedy best-first search.
///
/// The entry node seeds both the candidate pool and the retained result
/// pool; the best candidate is expanded until it is worse than the worst
/// retained result.  The retained results, in ascending distance order,
/// become the new node's neighbor list, and each of them receives the
/// symmetric back-edge.
#[verifier::rlimit(100)]
pub fn insert_into_layer(
    cache: &mut EmbeddingCache,
    store: &BlockStore,
    entry_id: u64,
    layer: &mut Layer,
    query: &Embedding,
    ef: usize,
) -> (r: Result<(), StoreError>)
    requires
        old(cache).wf(),
        old(cache).coherent(store),
        store.wf(),
        store.uniform_dim(query.data@.len() as nat),
        query.wf(),
        layer_wf(old(layer)@),
        ef >= 1,
    ensures
        final(cache).wf(),
        final(cache).coherent(store),
        layer_wf(final(layer)@),
        r is Err ==> final(layer)@ == old(layer)@,
        old(layer)@.len() == 0 ==> r is Ok,
        old(layer)@.len() == 0 ==> *final(cache) == *old(cache),
        store.lookup(entry_id) is Some && targets_resolve(old(layer)@, store) ==> r is Ok,
        r is Ok && targets_resolve(old(layer)@, store) && store.lookup(query@.id) == Some(
            query@,
        ) ==> targets_resolve(final(layer)@, store),
        r is Ok ==> layer_inserted(
            old(layer)@,
            final(layer)@,
            store,
            query@,
            entry_id,
            ef as int,
        ),
{
    if layer.nodes.len() == 0 {
        layer.nodes.push(GraphNode { id: query.id, neighbors: Vec::new() });
        proof {
            assert(final(layer)@ =~= nodes_view(layer.nodes@));
            assert(layer@[0].id == query@.id);
            assert(layer@[0].neighbors.len() == 0);
            assert(targets_resolve(layer@, store));
            assert(layer_inserted(old(layer)@, layer@, store, query@, entry_id, ef as int));
        }
        return Ok(());
    }

    let entry_node = match cache.get(store, entry_id) {
        Ok(e) => e,
        Err(e) => {
            return Err(e);
        },
    };
    proof {
        crate::store::lemma_lookup_props(store, entry_id, query.data@.len() as nat);
    }
    let dist = distance(query, &entry_node);

    let mut candidates: Vec<(i64, u64)> = Vec::new();
    let mut results: Vec<(i64, u64)> = Vec::new();
    let mut visited: Vec<u64> = Vec::new();
    candidates.push((dist, entry_id));
    results.push((dist, entry_id));
    visited.push(entry_id);

    // a generous traversal budget: the loop pops once per push, and every
    // push marks one more node visited
    let mut fuel: usize = 1;
    let mut t: usize = 0;
    while t < layer.nodes.len()
        invariant
            fuel >= 1,
            layer@ == old(layer)@,
        decreases layer.nodes@.len() - t,
    {
        let extra = layer.nodes[t].neighbors.len();
        if fuel <= usize::MAX - extra {
            fuel = fuel + extra;
        }
        if fuel < usize::MAX {
            fuel = fuel + 1;
        }
        t = t + 1;
    }

    while fuel > 0 && candidates.len() > 0
        invariant
            cache.wf(),
            cache.coherent(store),
            layer@ == old(layer)@,
            pool_scored(store, query@, candidates@),
            pool_scored(store, query@, results@),
            pool_referenced(old(layer)@, entry_id, candidates@),
            pool_referenced(old(layer)@, entry_id, results@),
            results@.len() >= 1,
            results@.len() <= ef,
        decreases fuel,
    {
        fuel = fuel - 1;

        // best candidate
        let mut best: usize = 0;
        let mut k: usize = 1;
        while k < candidates.len()
            invariant
                best < candidates@.len(),
                k <= candidates@.len(),
                candidates@.len() >= 1,
            decreases candidates@.len() - k,
        {
            let a = candidates[k];
            let b = candidates[best];
            if a.0 < b.0 || (a.0 == b.0 && a.1 < b.1) {
                best = k;
            }
            k = k + 1;
        }
        let current = candidates.remove(best);
        proof {
            assert forall|k2: int| 0 <= k2 < candidates@.len() implies scored_against(
                store,
                query@,
                (#[trigger] candidates@[k2]).1,
                candidates@[k2].0,
            ) && ((#[trigger] candidates@[k2]).1 == entry_id || layer_edge_target(
                old(layer)@,
                candidates@[k2].1,
            )) by {
                if k2 < best {
                } else {
                }
            }
        }

        // worst retained result
        let mut worst: usize = 0;
        let mut k: usize = 1;
        while k < results.len()
            invariant
                worst < results@.len(),
                k <= results@.len(),
                results@.len() >= 1,
            decreases results@.len() - k,
        {
            let a = results[k];
            let b = results[worst];
            if a.0 > b.0 || (a.0 == b.0 && a.1 > b.1) {
                worst = k;
            }
            k = k + 1;
        }
        let furthest = results[worst].0;
        if current.0 > furthest {
            break ;
        }

        let edges = match layer.get(current.1) {
            Some(v) => v,
            None => Vec::new(),
        };
        let ghost cur_listed = neighbors_of(old(layer)@, current.1) == Some(edges@);
        proof {
            assert(edges@.len() > 0 ==> cur_listed);
        }
        let mut j: usize = 0;
        while j < edges.len()
            invariant
                cache.wf(),
                cache.coherent(store),
                layer@ == old(layer)@,
                cur_listed == (neighbors_of(old(layer)@, current.1) == Some(edges@)),
                edges@.len() > 0 ==> cur_listed,
                pool_scored(store, query@, candidates@),
                pool_scored(store, query@, results@),
                pool_referenced(old(layer)@, entry_id, candidates@),
                pool_referenced(old(layer)@, entry_id, results@),
                results@.len() >= 1,
                results@.len() <= ef,
            decreases edges@.len() - j,
        {
            let nid = edges[j].0;
            proof {
                lemma_neighbors_payload(old(layer)@, current.1);
                let pw = choose|p: int|
                    0 <= p < old(layer)@.len() && (#[trigger] old(layer)@[p]).id == current.1
                        && old(layer)@[p].neighbors == neighbors_of(
                        old(layer)@,
                        current.1,
                    )->Some_0;
                assert(old(layer)@[pw].neighbors[j as int].0 == nid);
                assert(layer_edge_target(old(layer)@, nid));
            }
            let mut seen = false;
            let mut v: usize = 0;
            while v < visited.len()
                invariant
                    v <= visited@.len(),
                decreases visited@.len() - v,
            {
                if visited[v] == nid {
                    seen = true;
                }
                v = v + 1;
            }
            if !seen {
                visited.push(nid);
                let neighbor = match cache.get(store, nid) {
                    Ok(e) => e,
                    Err(e) => {
                        proof {
                            // under the success hypothesis this id resolves
                            if store.lookup(entry_id) is Some && targets_resolve(
                                old(layer)@,
                                store,
                            ) {
                                assert(store.lookup(nid) is Some);
                                assert(false);
                            }
                        }
                        return Err(e);
                    },
                };
                proof {
                    crate::store::lemma_lookup_props(store, nid, query.data@.len() as nat);
                }
                let d = distance(query, &neighbor);
                if results.len() < ef || d < furthest {
                    candidates.push((d, nid));
                    results.push((d, nid));
                    if results.len() > ef {
                        // drop the worst retained result
                        let mut w2: usize = 0;
                        let mut k2: usize = 1;
                        while k2 < results.len()
                            invariant
                                w2 < results@.len(),
                                k2 <= results@.len(),
                                results@.len() >= 2,
                                pool_scored(store, query@, results@),
                            decreases results@.len() - k2,
                        {
                            let a = results[k2];
                            let b = results[w2];
                            if a.0 > b.0 || (a.0 == b.0 && a.1 > b.1) {
                                w2 = k2;
                            }
                            k2 = k2 + 1;
                        }
                        results.remove(w2);
                        proof {
                            assert forall|k3: int| 0 <= k3 < results@.len() implies scored_against(
                                store,
                                query@,
                                (#[trigger] results@[k3]).1,
                                results@[k3].0,
                            ) && ((#[trigger] results@[k3]).1 == entry_id || layer_edge_target(
                                old(layer)@,
                                results@[k3].1,
                            )) by {}
                        }
                    }
                }
            }
            j = j + 1;
        }
    }

    // retained results in ascending (distance, id) order
    let mut sorted: Vec<(i64, u64)> = Vec::new();
    let mut k: usize = 0;
    while k < results.len()
        invariant
            k <= results@.len(),
            results@.len() <= ef,
            sorted@.len() == k,
            pool_scored(store, query@, results@),
            pool_scored(store, query@, sorted@),
            pool_referenced(old(layer)@, entry_id, results@),
            pool_referenced(old(layer)@, entry_id, sorted@),
            forall|a: int, b: int|
                0 <= a < b < sorted@.len() ==> ((#[trigger] sorted@[a]).0 < (
                #[trigger] sorted@[b]).0 || (sorted@[a].0 == sorted@[b].0 && sorted@[a].1
                    <= sorted@[b].1)),
        decreases results@.len() - k,
    {
        let item = results[k];
        // insertion position
        let mut pos: usize = 0;
        while pos < sorted.len() && (sorted[pos].0 < item.0 || (sorted[pos].0 == item.0
            && sorted[pos].1 <= item.1))
            invariant
                pos <= sorted@.len(),
                forall|a: int|
                    0 <= a < pos ==> ((#[trigger] sorted@[a]).0 < item.0 || (sorted@[a].0 == item.0
                        && sorted@[a].1 <= item.1)),
            decreases sorted@.len() - pos,
        {
            pos = pos + 1;
        }
        let ghost s0 = sorted@;
        sorted.insert(pos, item);
        proof {
            assert(sorted@ =~= s0.insert(pos as int, item));
            assert forall|a: int| 0 <= a < sorted@.len() implies scored_against(
                store,
                query@,
                (#[trigger] sorted@[a]).1,
                sorted@[a].0,
            ) && ((#[trigger] sorted@[a]).1 == entry_id || layer_edge_target(
                old(layer)@,
                sorted@[a].1,
            )) by {
                if a < pos {
                    assert(sorted@[a] == s0[a]);
                } else if a == pos {
                    assert(sorted@[a] == item);
                } else {
                    assert(sorted@[a] == s0[a - 1]);
                }
            }
            assert forall|a: int, b: int|
                0 <= a < b < sorted@.len() implies ((#[trigger] sorted@[a]).0 < (
            #[trigger] sorted@[b]).0 || (sorted@[a].0 == sorted@[b].0 && sorted@[a].1
                <= sorted@[b].1)) by {
                if a < pos && b < pos {
                } else if a < pos && b == pos {
                } else if a < pos && b > pos {
                } else if a == pos {
                    assert(sorted@[b] == s0[b - 1]);
                    if pos < s0.len() {
                        assert(!(s0[pos as int].0 < item.0 || (s0[pos as int].0 == item.0
                            && s0[pos as int].1 <= item.1)));
                    }
                } else {
                }
            }
        }
        k = k + 1;
    }

    // the new node's list, and the symmetric back-edges
    let mut nl: Vec<(u64, i64)> = Vec::new();
    let mut k: usize = 0;
    while k < sorted.len()
        invariant
            k <= sorted@.len(),
            nl@.len() == k,
            forall|a: int|
                0 <= a < k ==> #[trigger] nl@[a] == (sorted@[a].1, sorted@[a].0),
        decreases sorted@.len() - k,
    {
        nl.push((sorted[k].1, sorted[k].0));
        k = k + 1;
    }
    proof {
        assert(sorted_edges(nl@));
        assert forall|a: int| 0 <= a < nl@.len() implies scored_against(
            store,
            query@,
            (#[trigger] nl@[a]).0,
            nl@[a].1,
        ) by {
            assert(nl@[a] == (sorted@[a].1, sorted@[a].0));
        }
    }

    let ghost pre = layer@;
    let ghost can = targets_resolve(old(layer)@, store) && store.lookup(query@.id) == Some(
        query@,
    );
    let mut k: usize = 0;
    while k < nl.len()
        invariant
            k <= nl@.len(),
            layer_wf(layer@),
            can ==> targets_resolve(layer@, store),
            can == (targets_resolve(old(layer)@, store) && store.lookup(query@.id) == Some(
                query@,
            )),
            forall|a: int|
                0 <= a < k ==> has_edge(layer@, (#[trigger] nl@[a]).0, query@.id, nl@[a].1),
            forall|a: int|
                0 <= a < k ==> ((#[trigger] nl@[a]).0 == query@.id || back_linked(
                    pre,
                    layer@,
                    query@.id,
                    nl@,
                    nl@[a].0,
                )),
            forall|id: u64|
                (forall|a: int| 0 <= a < k ==> (#[trigger] nl@[a]).0 != id)
                    ==> #[trigger] neighbors_of(layer@, id) == neighbors_of(pre, id),
            layer@.len() >= pre.len(),
            pre.len() > 0 ==> layer@.len() > 0,
        decreases nl@.len() - k,
    {
        let (nid, d) = nl[k];
        let ghost lcur = layer@;
        match layer.index_of(nid) {
            Some(i) => {
                let mut edges = copy_edges(&layer.nodes[i].neighbors);
                edges.push((query.id, d));
                let ghost node = NodeV { id: nid, neighbors: edges@ };
                proof {
                    assert(forall|p: int| 0 <= p < i ==> (#[trigger] lcur[p]).id != nid);
                }
                layer.nodes.set(i, GraphNode { id: nid, neighbors: edges });
                proof {
                    assert(layer@ =~= lcur.update(i as int, node));
                    lemma_neighbors_update(lcur, i as int, node);
                    assert(neighbors_of(layer@, nid) == Some(node.neighbors));
                    let ns2 = neighbors_of(layer@, nid)->Some_0;
                    assert(ns2 == node.neighbors);
                    assert(ns2.len() >= 1);
                    assert(ns2[ns2.len() - 1] == (query@.id, d));
                    assert(exists|j: int| 0 <= j < ns2.len() && ns2[j] == (query@.id, d));
                    assert(has_edge(layer@, nid, query@.id, d));
                    assert forall|p: int, q2: int|
                        0 <= p < q2 < layer@.len() implies (#[trigger] layer@[p]).id != (
                        #[trigger] layer@[q2]).id by {
                        assert(layer@[p].id == lcur[p].id);
                        assert(layer@[q2].id == lcur[q2].id);
                    }
                    assert forall|a: int| 0 <= a < k implies has_edge(
                        layer@,
                        (#[trigger] nl@[a]).0,
                        query@.id,
                        nl@[a].1,
                    ) by {
                        if nl@[a].0 == nid {
                            let ns0 = neighbors_of(lcur, nid)->Some_0;
                            assert(ns0 == lcur[i as int].neighbors);
                            let jj = choose|j: int|
                                0 <= j < ns0.len() && ns0[j] == (query@.id, nl@[a].1);
                            let ns2 = neighbors_of(layer@, nid)->Some_0;
                            assert(ns2 == node.neighbors);
                            assert(ns2[jj] == (query@.id, nl@[a].1));
                            assert(exists|j: int|
                                0 <= j < ns2.len() && ns2[j] == (query@.id, nl@[a].1));
                        } else {
                            assert(neighbors_of(layer@, nl@[a].0) == neighbors_of(
                                lcur,
                                nl@[a].0,
                            ));
                        }
                    }
                    if can {
                        assert forall|p: int, j2: int|
                            0 <= p < layer@.len() && 0 <= j2 < layer@[p].neighbors.len()
                                implies store.lookup(
                                (#[trigger] layer@[p].neighbors[j2]).0,
                            ) is Some by {
                            if p == i {
                                assert(layer@[p].neighbors == node.neighbors);
                                if j2 < lcur[i as int].neighbors.len() {
                                    assert(layer@[p].neighbors[j2]
                                        == lcur[i as int].neighbors[j2]);
                                    assert(store.lookup(lcur[i as int].neighbors[j2].0) is Some);
                                } else {
                                    assert(layer@[p].neighbors[j2] == (query@.id, d));
                                }
                            } else {
                                assert(layer@[p] == lcur[p]);
                                assert(store.lookup(lcur[p].neighbors[j2].0) is Some);
                            }
                        }
                    }
                    let old_edges = lcur[i as int].neighbors;
                    assert(neighbors_of(lcur, nid) == Some(old_edges));
                    assert(ns2 =~= old_edges.push((query@.id, d)));
                    if nid != query@.id {
                        if exists|a: int| 0 <= a < k && (#[trigger] nl@[a]).0 == nid {
                            let aw = choose|a: int| 0 <= a < k && (#[trigger] nl@[a]).0 == nid;
                            assert(back_linked(pre, lcur, query@.id, nl@, nid));
                            let pe = prior_edges(pre, nid);
                            assert(old_edges.take(pe.len() as int) == pe);
                            assert(ns2.take(pe.len() as int) =~= old_edges.take(pe.len() as int));
                            assert forall|m: int|
                                pe.len() <= m < ns2.len() implies ((#[trigger] ns2[m]).0
                                == query@.id && nl@.contains((nid, ns2[m].1))) by {
                                if m < old_edges.len() {
                                    assert(ns2[m] == old_edges[m]);
                                } else {
                                    assert(ns2[m] == (query@.id, d));
                                    assert(nl@[k as int] == (nid, d));
                                }
                            }
                            assert(back_linked(pre, layer@, query@.id, nl@, nid));
                        } else {
                            assert(forall|a: int| 0 <= a < k ==> (#[trigger] nl@[a]).0 != nid);
                            assert(neighbors_of(lcur, nid) == neighbors_of(pre, nid));
                            let pe = prior_edges(pre, nid);
                            assert(pe == old_edges);
                            assert(ns2.take(pe.len() as int) =~= old_edges);
                            assert forall|m: int|
                                pe.len() <= m < ns2.len() implies ((#[trigger] ns2[m]).0
                                == query@.id && nl@.contains((nid, ns2[m].1))) by {
                                assert(m == old_edges.len());
                                assert(ns2[m] == (query@.id, d));
                                assert(nl@[k as int] == (nid, d));
                            }
                            assert(back_linked(pre, layer@, query@.id, nl@, nid));
                        }
                    }
                    assert forall|a: int|
                        0 <= a < k implies ((#[trigger] nl@[a]).0 == query@.id || back_linked(
                        pre,
                        layer@,
                        query@.id,
                        nl@,
                        nl@[a].0,
                    )) by {
                        let t = nl@[a].0;
                        if t != query@.id && t != nid {
                            assert(back_linked(pre, lcur, query@.id, nl@, t));
                            assert(neighbors_of(layer@, t) == neighbors_of(lcur, t));
                        }
                    }
                    assert forall|id: u64|
                        (forall|a: int| 0 <= a < k + 1 ==> (#[trigger] nl@[a]).0 != id)
                            implies #[trigger] neighbors_of(layer@, id) == neighbors_of(
                        pre,
                        id,
                    ) by {
                        assert(nl@[k as int].0 != id);
                        assert(id != nid);
                        assert(neighbors_of(layer@, id) == neighbors_of(lcur, id));
                    }
                }
            },
            None => {
                let mut edges: Vec<(u64, i64)> = Vec::new();
                edges.push((query.id, d));
                let ghost node = NodeV { id: nid, neighbors: edges@ };
                let ghost n0 = layer@.len();
                layer.nodes.push(GraphNode { id: nid, neighbors: edges });
                proof {
                    assert(layer@ =~= lcur.push(node));
                    lemma_neighbors_push(lcur, node);
                    assert(neighbors_of(layer@, nid) == Some(node.neighbors));
                    let ns2 = neighbors_of(layer@, nid)->Some_0;
                    assert(ns2 == node.neighbors);
                    assert(ns2.len() == 1);
                    assert(ns2[0] == (query@.id, d));
                    assert(exists|j: int| 0 <= j < ns2.len() && ns2[j] == (query@.id, d));
                    assert(has_edge(layer@, nid, query@.id, d));
                    assert forall|a: int| 0 <= a < k implies has_edge(
                        layer@,
                        (#[trigger] nl@[a]).0,
                        query@.id,
                        nl@[a].1,
                    ) by {
                        if nl@[a].0 == nid {
                            assert(false);
                        } else {
                            assert(neighbors_of(layer@, nl@[a].0) == neighbors_of(
                                lcur,
                                nl@[a].0,
                            ));
                        }
                    }
                    if can {
                        assert forall|p: int, j2: int|
                            0 <= p < layer@.len() && 0 <= j2 < layer@[p].neighbors.len()
                                implies store.lookup(
                                (#[trigger] layer@[p].neighbors[j2]).0,
                            ) is Some by {
                            if p == layer@.len() - 1 {
                                assert(layer@[p].neighbors == node.neighbors);
                                assert(layer@[p].neighbors[j2] == (query@.id, d));
                            } else {
                                assert(layer@[p] == lcur[p]);
                                assert(store.lookup(lcur[p].neighbors[j2].0) is Some);
                            }
                        }
                    }
                    assert forall|p: int, q2: int|
                        0 <= p < q2 < layer@.len() implies (#[trigger] layer@[p]).id != (
                        #[trigger] layer@[q2]).id by {
                        if q2 == layer@.len() - 1 {
                            assert(layer@[p] == lcur[p]);
                            if lcur[p].id == nid {
                                lemma_neighbors_first(lcur, p);
                            }
                        } else {
                            assert(layer@[p] == lcur[p]);
                            assert(layer@[q2] == lcur[q2]);
                        }
                    }
                    if nid != query@.id {
                        if exists|a: int| 0 <= a < k && (#[trigger] nl@[a]).0 == nid {
                            let aw = choose|a: int| 0 <= a < k && (#[trigger] nl@[a]).0 == nid;
                            assert(back_linked(pre, lcur, query@.id, nl@, nid));
                            assert(neighbors_of(lcur, nid) is Some);
                            assert(false);
                        } else {
                            assert(forall|a: int| 0 <= a < k ==> (#[trigger] nl@[a]).0 != nid);
                            assert(neighbors_of(lcur, nid) == neighbors_of(pre, nid));
                            assert(prior_edges(pre, nid) =~= Seq::<(u64, i64)>::empty());
                            assert(ns2.take(0) =~= Seq::<(u64, i64)>::empty());
                            assert(nl@[k as int] == (nid, d));
                            assert(nl@.contains((nid, d)));
                            assert(back_linked(pre, layer@, query@.id, nl@, nid));
                        }
                    }
                    assert forall|a: int|
                        0 <= a < k implies ((#[trigger] nl@[a]).0 == query@.id || back_linked(
                        pre,
                        layer@,
                        query@.id,
                        nl@,
                        nl@[a].0,
                    )) by {
                        let t = nl@[a].0;
                        if t != query@.id && t != nid {
                            assert(back_linked(pre, lcur, query@.id, nl@, t));
                            assert(neighbors_of(layer@, t) == neighbors_of(lcur, t));
                        } else if t == nid && t != query@.id {
                            assert(back_linked(pre, lcur, query@.id, nl@, nid));
                            assert(false);
                        }
                    }
                    assert forall|id: u64|
                        (forall|a: int| 0 <= a < k + 1 ==> (#[trigger] nl@[a]).0 != id)
                            implies #[trigger] neighbors_of(layer@, id) == neighbors_of(
                        pre,
                        id,
                    ) by {
                        assert(nl@[k as int].0 != id);
                        assert(id != nid);
                        assert(neighbors_of(layer@, id) == neighbors_of(lcur, id));
                    }
                }
            },
        }
        proof {
            assert forall|a: int| 0 <= a < k + 1 implies has_edge(
                layer@,
                (#[trigger] nl@[a]).0,
                query@.id,
                nl@[a].1,
            ) by {
                if a == k {
                    assert(nl@[k as int] == (nid, d));
                }
            }
        }
        k = k + 1;
    }

    // finally, the node itself
    let ghost before_upsert = layer@;
    let ghost qnode = NodeV { id: query@.id, neighbors: nl@ };
    match layer.index_of(query.id) {
        Some(i) => {
            proof {
                assert(forall|p: int| 0 <= p < i ==> (#[trigger] before_upsert[p]).id != query@.id);
            }
            layer.nodes.set(i, GraphNode { id: query.id, neighbors: nl });
            proof {
                assert(layer@ =~= before_upsert.update(i as int, qnode));
                lemma_neighbors_update(before_upsert, i as int, qnode);
                assert forall|p: int, q2: int|
                    0 <= p < q2 < layer@.len() implies (#[trigger] layer@[p]).id != (
                    #[trigger] layer@[q2]).id by {
                    assert(layer@[p].id == before_upsert[p].id);
                    assert(layer@[q2].id == before_upsert[q2].id);
                }
                if can {
                    assert forall|p: int, j2: int|
                        0 <= p < layer@.len() && 0 <= j2 < layer@[p].neighbors.len()
                            implies store.lookup(
                            (#[trigger] layer@[p].neighbors[j2]).0,
                        ) is Some by {
                        if p == i {
                            assert(layer@[p].neighbors == qnode.neighbors);
                            assert(scored_against(store, query@, nl@[j2].0, nl@[j2].1));
                        } else {
                            assert(layer@[p] == before_upsert[p]);
                            assert(store.lookup(before_upsert[p].neighbors[j2].0) is Some);
                        }
                    }
                    assert(targets_resolve(layer@, store));
                }
            }
        },
        None => {
            layer.nodes.push(GraphNode { id: query.id, neighbors: nl });
            proof {
                assert(layer@ =~= before_upsert.push(qnode));
                lemma_neighbors_push(before_upsert, qnode);
                assert forall|p: int, q2: int|
                    0 <= p < q2 < layer@.len() implies (#[trigger] layer@[p]).id != (
                    #[trigger] layer@[q2]).id by {
                    if q2 == layer@.len() - 1 {
                        assert(layer@[p] == before_upsert[p]);
                        if before_upsert[p].id == query@.id {
                            lemma_neighbors_first(before_upsert, p);
                        }
                    } else {
                        assert(layer@[p] == before_upsert[p]);
                        assert(layer@[q2] == before_upsert[q2]);
                    }
                }
                if can {
                    assert forall|p: int, j2: int|
                        0 <= p < layer@.len() && 0 <= j2 < layer@[p].neighbors.len()
                            implies store.lookup(
                            (#[trigger] layer@[p].neighbors[j2]).0,
                        ) is Some by {
                        if p == layer@.len() - 1 {
                            assert(layer@[p].neighbors == qnode.neighbors);
                            assert(scored_against(store, query@, nl@[j2].0, nl@[j2].1));
                        } else {
                            assert(layer@[p] == before_upsert[p]);
                            assert(store.lookup(before_upsert[p].neighbors[j2].0) is Some);
                        }
                    }
                    assert(targets_resolve(layer@, store));
                }
            }
        },
    }
    proof {
        assert(neighbors_of(layer@, query@.id) == Some(nl@));
        assert forall|a: int| 0 <= a < nl@.len() implies has_edge(
            layer@,
            (#[trigger] nl@[a]).0,
            query@.id,
            nl@[a].1,
        ) by {
            if nl@[a].0 == query@.id {
                assert(neighbors_of(layer@, query@.id) == Some(nl@));
                let ns2 = neighbors_of(layer@, query@.id)->Some_0;
                assert(ns2 == nl@);
                assert(ns2[a] == (query@.id, nl@[a].1));
                assert(exists|j: int| 0 <= j < ns2.len() && ns2[j] == (query@.id, nl@[a].1));
            } else {
                assert(neighbors_of(layer@, nl@[a].0) == neighbors_of(before_upsert, nl@[a].0));
            }
        }
        assert forall|id: u64|
            id != query@.id && (forall|a: int| 0 <= a < nl@.len() ==> (#[trigger] nl@[a]).0 != id)
                implies #[trigger] neighbors_of(layer@, id) == neighbors_of(pre, id) by {
            assert(neighbors_of(layer@, id) == neighbors_of(before_upsert, id));
            assert(neighbors_of(before_upsert, id) == neighbors_of(pre, id));
        }
        assert(pre == old(layer)@);

        // the postcondition, phrased over the looked-up payload
        let nsf = neighbors_of(layer@, query@.id)->Some_0;
        assert(nsf == nl@);
        assert(sorted_edges(nsf));
        assert(nsf.len() <= ef);
        assert forall|k2: int| 0 <= k2 < nsf.len() implies ((#[trigger] nsf[k2]).0 == entry_id
            || layer_edge_target(old(layer)@, nsf[k2].0)) by {
            assert(nl@[k2] == (sorted@[k2].1, sorted@[k2].0));
            assert(sorted@[k2].1 == entry_id || layer_edge_target(old(layer)@, sorted@[k2].1));
        }
        assert forall|k2: int| 0 <= k2 < nsf.len() implies scored_against(
            store,
            query@,
            (#[trigger] nsf[k2]).0,
            nsf[k2].1,
        ) by {
            assert(scored_against(store, query@, nl@[k2].0, nl@[k2].1));
        }
        assert forall|k2: int| 0 <= k2 < nsf.len() implies has_edge(
            layer@,
            (#[trigger] nsf[k2]).0,
            query@.id,
            nsf[k2].1,
        ) by {
            assert(has_edge(layer@, nl@[k2].0, query@.id, nl@[k2].1));
        }
        assert forall|id: u64|
            id != query@.id && (forall|k2: int| 0 <= k2 < nsf.len() ==> (#[trigger] nsf[k2]).0 != id)
                implies #[trigger] neighbors_of(layer@, id) == neighbors_of(old(layer)@, id) by {
            assert forall|a: int| 0 <= a < nl@.len() implies (#[trigger] nl@[a]).0 != id by {
                assert(nsf[a].0 != id);
            }
        }
        assert forall|k2: int|
            0 <= k2 < nsf.len() implies ((#[trigger] nsf[k2]).0 == query@.id || back_linked(
            old(layer)@,
            layer@,
            query@.id,
            nsf,
            nsf[k2].0,
        )) by {
            if nsf[k2].0 != query@.id {
                assert(nl@[k2].0 == nsf[k2].0);
                assert(back_linked(pre, before_upsert, query@.id, nl@, nl@[k2].0));
                assert(neighbors_of(layer@, nl@[k2].0) == neighbors_of(before_upsert, nl@[k2].0));
            }
        }
        assert(layer_inserted(old(layer)@, layer@, store, query@, entry_id, ef as int));
    }
    Ok(())
}

/// If an id occurs at some position, the first occurrence is at or before
/// it; with a match at `p`, lookups find something.
pub proof fn lemma_neighbors_first(l: Seq<NodeV>, p: int)
    requires
        0 <= p < l.len(),
    ensures
        neighbors_of(l, l[p].id) is Some,
    decreases p,
{
    if p > 0 && l[0].id != l[p].id {
        assert(l.drop_first()[p - 1] == l[p]);
        lemma_neighbors_first(l.drop_first(), p - 1);
    }
}

/// The index: node count, layers from sparse top to dense bottom, the
/// search entry point, and the per-layer insertion thresholds in `UNIT`
/// fixed-point probability units.
#[derive(Debug)]
pub struct HNSW {
    pub size: u32,
    pub layers: Vec<Layer>,
    pub entry_id: Option<u64>,
    pub thresholds: Vec<u64>,
}

/// The images of all layers.
pub open spec fn layers_view(ls: Seq<Layer>) -> Seq<Seq<NodeV>> {
    Seq::new(ls.len(), |i: int| ls[i]@)
}

impl HNSW {
    /// The images of this index's layers.
    pub open spec fn v_layers(&self) -> Seq<Seq<NodeV>> {
        layers_view(self.layers@)
    }

    /// Every layer has unique node ids, and an index with layers has an
    /// entry point.
    pub open spec fn wf(&self) -> bool {
        &&& forall|i: int| 0 <= i < self.v_layers().len() ==> layer_wf(#[trigger] self.v_layers()[i])
        &&& (self.entry_id is None ==> forall|i: int|
            0 <= i < self.v_layers().len() ==> (#[trigger] self.v_layers()[i]).len() == 0)
    }

    /// An index with no nodes and no layers.
    pub fn empty() -> (r: HNSW)
        ensures
            r.wf(),
            r.size == 0,
            r.v_layers().len() == 0,
            r.entry_id is None,
            r.thresholds@.len() == 0,
    {
        HNSW { size: 0, layers: Vec::new(), entry_id: None, thresholds: Vec::new() }
    }

    /// The bottom (densest) layer, which lists every indexed node.
    pub fn get_last_layer(&self) -> (r: Option<&Layer>)
        ensures
            match r {
                Some(l) => self.v_layers().len() > 0 && l@ == self.v_layers().last(),
                None => self.v_layers().len() == 0,
            },
    {
        if self.layers.len() == 0 {
            None
        } else {
            let l = &self.layers[self.layers.len() - 1];
            Some(l)
        }
    }

    /// Remove a node: erase its entry and every edge referencing it from
    /// every layer, and decrement the size.
    ///
    /// Neighbors are not rewired: the graph may fragment, and rebuilding
    /// or reblocking is the repair path.
    pub fn remove_node(&mut self, target_id: u64)
        requires
            old(self).wf(),
            old(self).size >= 1,
        ensures
            final(self).wf(),
            final(self).size == old(self).size - 1,
            final(self).v_layers().len() == old(self).v_layers().len(),
            final(self).entry_id == old(self).entry_id,
            final(self).thresholds == old(self).thresholds,
            forall|i: int|
                0 <= i < final(self).v_layers().len() ==> neighbors_of(
                    #[trigger] final(self).v_layers()[i],
                    target_id,
                ) is None,
            forall|i: int, id: u64|
                0 <= i < final(self).v_layers().len() && id != target_id
                    ==> #[trigger] neighbors_of(final(self).v_layers()[i], id) == (
                match neighbors_of(old(self).v_layers()[i], id) {
                    Some(ns) => Some(edges_without(ns, target_id)),
                    None => None::<Seq<(u64, i64)>>,
                }),
            forall|i: int, id: u64, d: i64|
                0 <= i < final(self).v_layers().len() ==> !#[trigger] has_edge(
                    final(self).v_layers()[i],
                    id,
                    target_id,
                    d,
                ),
    {
        let n = self.layers.len();
        let mut i: usize = 0;
        while i < n
            invariant
                i <= n,
                n == self.v_layers().len(),
                self.size == old(self).size,
                self.entry_id == old(self).entry_id,
                self.thresholds == old(self).thresholds,
                forall|p: int| 0 <= p < n ==> layer_wf(#[trigger] self.v_layers()[p]),
                forall|p: int|
                    i <= p < n ==> #[trigger] self.v_layers()[p] == old(self).v_layers()[p],
                forall|p: int|
                    0 <= p < i ==> (#[trigger] self.v_layers()[p]).len() <= old(
                        self,
                    ).v_layers()[p].len(),
                forall|p: int|
                    0 <= p < i ==> neighbors_of(#[trigger] self.v_layers()[p], target_id) is None,
                forall|p: int, id: u64|
                    0 <= p < i && id != target_id ==> #[trigger] neighbors_of(
                        self.v_layers()[p],
                        id,
                    ) == (match neighbors_of(old(self).v_layers()[p], id) {
                        Some(ns) => Some(edges_without(ns, target_id)),
                        None => None::<Seq<(u64, i64)>>,
                    }),
            decreases n - i,
        {
            let ghost layers0 = self.layers@;
            let mut layer = self.layers.remove(i);
            proof {
                assert(layer == layers0[i as int]);
                assert(layer_wf(layers_view(layers0)[i as int]));
                assert(layers_view(layers0)[i as int] == layers0[i as int]@);
                assert(layer_wf(layer@));
            }
            let ghost lpre = layer@;
            layer.purge(target_id);
            self.layers.insert(i, layer);
            proof {
                assert(self.layers@ =~= layers0.update(
                    i as int,
                    self.layers@[i as int],
                ));
                assert(forall|p: int|
                    0 <= p < n && p != i ==> #[trigger] self.layers@[p] == layers0[p]);
                assert(forall|p: int|
                    0 <= p < n && p != i ==> #[trigger] self.v_layers()[p] == layers_view(
                        layers0,
                    )[p]);
                assert(lpre == old(self).v_layers()[i as int]);
                assert(self.v_layers()[i as int] == self.layers@[i as int]@);
            }
            i = i + 1;
        }
        proof {
            assert forall|li: int, id: u64, d: i64|
                0 <= li < self.v_layers().len() implies !#[trigger] has_edge(
                self.v_layers()[li],
                id,
                target_id,
                d,
            ) by {
                if id == target_id {
                    assert(neighbors_of(self.v_layers()[li], target_id) is None);
                } else {
                    match neighbors_of(old(self).v_layers()[li], id) {
                        Some(ns) => {
                            assert(neighbors_of(self.v_layers()[li], id) == Some(
                                edges_without(ns, target_id),
                            ));
                            lemma_edges_without_drops(ns, target_id);
                        },
                        None => {
                            assert(neighbors_of(self.v_layers()[li], id) is None);
                        },
                    }
                }
            }
        }
        self.size = self.size - 1;
    }
}

/// Powers of two.
pub open spec fn pow2i(k: nat) -> int
    decreases k,
{
    if k == 0 {
        1
    } else {
        2 * pow2i((k - 1) as nat)
    }
}

/// Floor of the base-two logarithm.
pub fn log2_floor(n: usize) -> (r: usize)
    requires
        n >= 1,
    ensures
        pow2i(r as nat) <= n < pow2i(r as nat + 1),
{
    let mut x: usize = n;
    let mut r: usize = 0;
    while x >= 2
        invariant
            x >= 1,
            pow2i(r as nat) * x <= n < pow2i(r as nat) * (x + 1),
            pow2i(r as nat) >= 1,
            pow2i(r as nat) <= n,
        decreases x,
    {
        let ghost p = pow2i(r as nat);
        let ghost x0 = x as int;
        proof {
            lemma_pow2i_ge(r as nat);
        }
        x = x / 2;
        r = r + 1;
        proof {
            let b = x0 - 2 * (x as int);
            assert(0 <= b <= 1);
            assert(pow2i(r as nat) == 2 * p);
            assert(2 * p * (x as int) <= p * x0) by (nonlinear_arith)
                requires
                    x0 == 2 * (x as int) + b,
                    0 <= b,
                    p >= 1,
            ;
            assert(p * (x0 + 1) <= 2 * p * ((x as int) + 1)) by (nonlinear_arith)
                requires
                    x0 == 2 * (x as int) + b,
                    b <= 1,
                    p >= 1,
            ;
            assert(2 * p * (x as int) >= 2 * p) by (nonlinear_arith)
                requires
                    p >= 1,
                    x as int >= 1,
            ;
        }
    }
    proof {
        assert(pow2i(r as nat) * 1 == pow2i(r as nat));
        assert(pow2i(r as nat) * 2 == pow2i(r as nat + 1));
    }
    r
}

/// `r` is the floor of the base-two logarithm of `n`.
pub open spec fn is_log2(n: int, r: int) -> bool {
    0 <= r && pow2i(r as nat) <= n < pow2i((r + 1) as nat)
}

/// Powers of two increase strictly.
proof fn lemma_pow2i_increasing(a: nat, b: nat)
    requires
        a < b,
    ensures
        pow2i(a) < pow2i(b),
    decreases b,
{
    if b == a + 1 {
        lemma_pow2i_ge(a);
    } else {
        lemma_pow2i_increasing(a, (b - 1) as nat);
        lemma_pow2i_ge((b - 1) as nat);
    }
}

/// The floor logarithm is unique.
pub proof fn lemma_log2_unique(n: int, a: int, b: int)
    requires
        is_log2(n, a),
        is_log2(n, b),
    ensures
        a == b,
{
    if a < b {
        if a + 1 < b {
            lemma_pow2i_increasing((a + 1) as nat, b as nat);
        }
        assert(pow2i((a + 1) as nat) <= pow2i(b as nat));
    }
    if b < a {
        if b + 1 < a {
            lemma_pow2i_increasing((b + 1) as nat, a as nat);
        }
        assert(pow2i((b + 1) as nat) <= pow2i(a as nat));
    }
}

/// The fresh top layer a growth step adds: the entry point with no edges,
/// or nothing at all for a still-empty index.
pub open spec fn seeded_layer(entry: Option<u64>) -> Seq<NodeV> {
    match entry {
        Some(e) => seq![NodeV { id: e, neighbors: Seq::empty() }],
        None => Seq::empty(),
    }
}

/// Whether the sampled probability places the node in layer `j`: its
/// threshold is cleared, or this is the very first node, or `j` is the
/// bottom layer (every node joins the bottom).
pub open spec fn insert_hits_layer(
    thr: Seq<u64>,
    prob: u64,
    entry: Option<u64>,
    nlayers: int,
    j: int,
) -> bool {
    (j < thr.len() && prob < thr[j]) || entry is None || j == nlayers - 1
}

/// Snapshot of layer `p` partway through an insertion pass: already
/// handled when `p` is before the cursor, still the pre-pass layer
/// otherwise.
pub open spec fn step_done_or_mid(
    thr: Seq<u64>,
    prob: u64,
    entry: Option<u64>,
    mid: Seq<Seq<NodeV>>,
    cur: Seq<NodeV>,
    p: int,
    cursor: int,
    store: &BlockStore,
    q: EmbeddingView,
    eid: u64,
) -> bool {
    if p < cursor {
        step_layer_ok(thr, prob, entry, mid, cur, p, store, q, eid)
    } else {
        cur == mid[p]
    }
}

/// Layer `p` after one insertion pass: updated per `layer_inserted` when
/// the sample placed the node there, untouched otherwise.
pub open spec fn step_layer_ok(
    thr: Seq<u64>,
    prob: u64,
    entry: Option<u64>,
    mid: Seq<Seq<NodeV>>,
    cur: Seq<NodeV>,
    p: int,
    store: &BlockStore,
    q: EmbeddingView,
    eid: u64,
) -> bool {
    if insert_hits_layer(thr, prob, entry, mid.len() as int, p) {
        layer_inserted(mid[p], cur, store, q, eid, DEFAULT_EF as int)
    } else {
        cur == mid[p]
    }
}

/// What one `insert` did, for the probability it drew: first the optional
/// growth step (a fresh seeded top layer and a recomputed threshold
/// schedule, exactly when the node count has outgrown the stack), then
/// one `insert_into_layer` for every layer the sample places the node in.
/// The node count a growth decision is measured against: at least one.
pub open spec fn size_floor(size: u32) -> int {
    if size >= 1 {
        size as int
    } else {
        1
    }
}

/// An insertion never removes a key, and makes the inserted id a key.
pub proof fn lemma_layer_inserted_keys(
    old_l: Seq<NodeV>,
    new_l: Seq<NodeV>,
    store: &BlockStore,
    q: EmbeddingView,
    eid: u64,
    ef: int,
)
    requires
        layer_inserted(old_l, new_l, store, q, eid, ef),
    ensures
        neighbors_of(new_l, q.id) is Some,
        forall|id: u64|
            #[trigger] neighbors_of(old_l, id) is Some ==> neighbors_of(new_l, id) is Some,
{
    if old_l.len() == 0 {
        assert(neighbors_of(new_l, q.id) is Some);
    } else {
        let nl = neighbors_of(new_l, q.id)->Some_0;
        assert forall|id: u64|
            #[trigger] neighbors_of(old_l, id) is Some implies neighbors_of(
            new_l,
            id,
        ) is Some by {
            if id == q.id {
            } else if exists|k: int| 0 <= k < nl.len() && (#[trigger] nl[k]).0 == id {
                let k = choose|k: int| 0 <= k < nl.len() && (#[trigger] nl[k]).0 == id;
                assert(has_edge(new_l, nl[k].0, q.id, nl[k].1));
            } else {
                assert(forall|k: int| 0 <= k < nl.len() ==> (#[trigger] nl[k]).0 != id);
                assert(neighbors_of(new_l, id) == neighbors_of(old_l, id));
            }
        }
    }
}

/// Everything an insertion needs to find in the store: the entry point,
/// the inserted embedding's own id, and every edge target of every layer.
pub open spec fn insert_inputs_resolve(h: HNSW, store: &BlockStore, q: EmbeddingView) -> bool {
    &&& (match h.entry_id {
        Some(e) => store.lookup(e) is Some,
        None => true,
    })
    &&& store.lookup(q.id) is Some
    &&& forall|li: int|
        0 <= li < h.v_layers().len() ==> targets_resolve(#[trigger] h.v_layers()[li], store)
}

pub open spec fn insert_outcome(
    pre: HNSW,
    post: HNSW,
    store: &BlockStore,
    q: EmbeddingView,
    prob: u64,
) -> bool {
    exists|lg: int|
        #[trigger] is_log2(size_floor(pre.size), lg) && {
            let grown = pre.layers@.len() == 0 || (pre.size >= 1 && lg > pre.layers@.len());
            let lgm: int = if lg >= 1 {
                lg
            } else {
                1
            };
            let mid: Seq<Seq<NodeV>> = if grown {
                seq![seeded_layer(pre.entry_id)] + pre.v_layers()
            } else {
                pre.v_layers()
            };
            let eid: u64 = match pre.entry_id {
                Some(e) => e,
                None => q.id,
            };
            &&& (grown ==> post.thresholds@.len() == lgm && (forall|t: int|
                0 <= t < lgm ==> #[trigger] post.thresholds@[t] == threshold_spec(lgm, t)))
            &&& (!grown ==> post.thresholds@ == pre.thresholds@)
            &&& post.v_layers().len() == mid.len()
            &&& forall|p: int|
                0 <= p < mid.len() ==> step_layer_ok(
                    post.thresholds@,
                    prob,
                    pre.entry_id,
                    mid,
                    #[trigger] post.v_layers()[p],
                    p,
                    store,
                    q,
                    eid,
                )
        }
}

/// Powers of two outgrow their exponent.
proof fn lemma_pow2i_ge(k: nat)
    ensures
        pow2i(k) >= k + 1,
    decreases k,
{
    if k > 0 {
        lemma_pow2i_ge((k - 1) as nat);
    }
}

/// The per-layer insertion threshold: the bottom layer draws `1/l` of the
/// unit, and each layer above it that fraction scaled by `1 - 1/l` again,
/// all in `UNIT` fixed-point probability units.
pub open spec fn threshold_spec(l: int, j: int) -> int
    decreases l - j,
{
    if j >= l - 1 {
        (UNIT as int) / l
    } else {
        threshold_spec(l, j + 1) * (UNIT as int - (UNIT as int) / l) / (UNIT as int)
    }
}

/// The ascending threshold schedule for `l` layers.
pub fn compute_thresholds(l: usize) -> (r: Vec<u64>)
    requires
        1 <= l,
    ensures
        r@.len() == l,
        forall|j: int| 0 <= j < l ==> #[trigger] r@[j] == threshold_spec(l as int, j),
        forall|j: int| 0 <= j < l ==> #[trigger] r@[j] <= UNIT,
{
    let p: u64 = UNIT / (l as u64);
    let mut rev: Vec<u64> = Vec::new();
    let mut t: u64 = p;
    proof {
        vstd::arithmetic::div_mod::lemma_div_is_ordered(
            UNIT as int,
            UNIT as int,
            l as int,
        );
        assert((UNIT as int) / 1 == UNIT as int);
        vstd::arithmetic::div_mod::lemma_div_is_ordered_by_denominator(
            UNIT as int,
            1,
            l as int,
        );
    }
    let mut j: usize = 0;
    while j < l
        invariant
            j <= l,
            1 <= l,
            p == UNIT / (l as u64),
            p <= UNIT,
            t <= UNIT,
            rev@.len() == j,
            forall|a: int| 0 <= a < j ==> #[trigger] rev@[a] == threshold_spec(l as int, l - 1 - a),
            forall|a: int| 0 <= a < j ==> #[trigger] rev@[a] <= UNIT,
            j < l ==> t == threshold_spec(l as int, l - 1 - j as int),
        decreases l - j,
    {
        rev.push(t);
        proof {
            assert((t as int) * ((UNIT - p) as int) <= (UNIT as int) * (UNIT as int))
                by (nonlinear_arith)
                requires
                    t <= UNIT,
                    (UNIT - p) as int <= UNIT as int,
                    0 <= t,
                    0 <= (UNIT - p) as int,
            ;
            assert((UNIT as int) * (UNIT as int) == 1152921504606846976);
        }
        let next: u64 = t * (UNIT - p) / UNIT;
        proof {
            vstd::arithmetic::div_mod::lemma_div_is_ordered(
                (t as int) * ((UNIT - p) as int),
                (UNIT as int) * (UNIT as int),
                UNIT as int,
            );
            vstd::arithmetic::div_mod::lemma_div_multiples_vanish(UNIT as int, UNIT as int);
            assert((UNIT as int) * (UNIT as int) / (UNIT as int) == UNIT as int);
        }
        t = next;
        j = j + 1;
    }
    // most-significant (top layer) first: reverse
    let mut out: Vec<u64> = Vec::new();
    let mut q: usize = l;
    while q > 0
        invariant
            q <= l,
            rev@.len() == l,
            out@.len() == l - q,
            forall|a: int| 0 <= a < l - q ==> #[trigger] out@[a] == rev@[l - 1 - a],
        decreases q,
    {
        q = q - 1;
        out.push(rev[q]);
    }
    proof {
        assert forall|a: int| 0 <= a < l implies #[trigger] out@[a] == threshold_spec(
            l as int,
            a,
        ) by {
            assert(out@[a] == rev@[l - 1 - a]);
            assert(rev@[l - 1 - a] == threshold_spec(l as int, l - 1 - (l - 1 - a)));
        }
    }
    out
}

/// Whether an id is listed.
pub(crate) fn id_in(v: &Vec<u64>, id: u64) -> (r: bool)
    ensures
        r == v@.contains(id),
{
    let mut i: usize = 0;
    while i < v.len()
        invariant
            i <= v@.len(),
            forall|p: int| 0 <= p < i ==> v@[p] != id,
        decreases v@.len() - i,
    {
        if v[i] == id {
            return true;
        }
        i = i + 1;
    }
    proof {
        assert(!v@.contains(id));
    }
    false
}

/// A query hit: a stored embedding that passed every filter, with its
/// distance to the query.
pub open spec fn good_hit(store: &BlockStore, q: EmbeddingView, fs: Seq<Filter>, e: EmbeddingView, d: i64) -> bool {
    &&& store.lookup(e.id) == Some(e)
    &&& d == spec_distance(q.data, e.data)
    &&& passes_filters(e, fs)
}

/// The id is referenced by some layer of the graph.
pub open spec fn hit_in_graph(ls: Seq<Seq<NodeV>>, id: u64) -> bool {
    exists|li: int| 0 <= li < ls.len() && layer_edge_target(#[trigger] ls[li], id)
}

/// The stored embedding under `id` exists and passes every filter.
pub open spec fn target_qualifies(store: &BlockStore, fs: Seq<Filter>, id: u64) -> bool {
    match store.lookup(id) {
        Some(e) => passes_filters(e, fs),
        None => false,
    }
}

/// The entry point is a key of this layer and one of its edges leads to a
/// stored, filter-passing embedding: the traversal starting there cannot
/// come back empty.
pub open spec fn entry_sees_hit(
    l: Seq<NodeV>,
    entry: u64,
    store: &BlockStore,
    fs: Seq<Filter>,
) -> bool {
    match neighbors_of(l, entry) {
        Some(ns) => exists|j: int|
            0 <= j < ns.len() && target_qualifies(store, fs, (#[trigger] ns[j]).0),
        None => false,
    }
}

/// A query hit that is also a node the graph references.
pub open spec fn graph_hit(
    store: &BlockStore,
    q: EmbeddingView,
    fs: Seq<Filter>,
    ls: Seq<Seq<NodeV>>,
    e: EmbeddingView,
    d: i64,
) -> bool {
    good_hit(store, q, fs, e, d) && hit_in_graph(ls, e.id)
}

/// Sort hits ascending by distance, keeping every element a graph hit.
fn sort_hits(
    hits: Vec<(Embedding, i64)>,
    Ghost(store): Ghost<&BlockStore>,
    Ghost(q): Ghost<EmbeddingView>,
    Ghost(fs): Ghost<Seq<Filter>>,
    Ghost(ls): Ghost<Seq<Seq<NodeV>>>,
) -> (r: Vec<(Embedding, i64)>)
    requires
        forall|i: int|
            0 <= i < hits@.len() ==> graph_hit(store, q, fs, ls, (#[trigger] hits@[i]).0@, hits@[i].1),
    ensures
        r@.len() == hits@.len(),
        forall|i: int|
            0 <= i < r@.len() ==> graph_hit(store, q, fs, ls, (#[trigger] r@[i]).0@, r@[i].1),
        forall|i: int| 0 <= i < r@.len() - 1 ==> (#[trigger] r@[i]).1 <= r@[i + 1].1,
{
    let mut rest = hits;
    let mut out: Vec<(Embedding, i64)> = Vec::new();
    while rest.len() > 0
        invariant
            forall|i: int|
                0 <= i < rest@.len() ==> graph_hit(store, q, fs, ls, (#[trigger] rest@[i]).0@, rest@[i].1),
            forall|i: int|
                0 <= i < out@.len() ==> graph_hit(store, q, fs, ls, (#[trigger] out@[i]).0@, out@[i].1),
            forall|i: int| 0 <= i < out@.len() - 1 ==> (#[trigger] out@[i]).1 <= out@[i + 1].1,
            forall|i: int, j: int|
                0 <= i < out@.len() && 0 <= j < rest@.len() ==> (#[trigger] out@[i]).1 <= (
                #[trigger] rest@[j]).1,
            out@.len() + rest@.len() == hits@.len(),
        decreases rest@.len(),
    {
        // smallest remaining distance
        let mut m: usize = 0;
        let mut i: usize = 1;
        while i < rest.len()
            invariant
                m < rest@.len(),
                i <= rest@.len(),
                rest@.len() >= 1,
                forall|p: int| 0 <= p < i ==> rest@[m as int].1 <= (#[trigger] rest@[p]).1,
            decreases rest@.len() - i,
        {
            if rest[i].1 < rest[m].1 {
                m = i;
            }
            i = i + 1;
        }
        let ghost rest0 = rest@;
        let picked = rest.remove(m);
        proof {
            assert forall|j: int| 0 <= j < rest@.len() implies picked.1 <= (
            #[trigger] rest@[j]).1 by {
                if j < m {
                    assert(rest@[j] == rest0[j]);
                } else {
                    assert(rest@[j] == rest0[j + 1]);
                }
            }
            assert forall|j: int| 0 <= j < rest@.len() implies graph_hit(
                store,
                q,
                fs,
                ls,
                (#[trigger] rest@[j]).0@,
                rest@[j].1,
            ) by {
                if j < m {
                    assert(rest@[j] == rest0[j]);
                } else {
                    assert(rest@[j] == rest0[j + 1]);
                }
            }
        }
        out.push(picked);
    }
    out
}

impl HNSW {
    /// Filtered approximate top-k search.
    ///
    /// Descends from the top layer, greedily walking unvisited,
    /// filter-passing neighbors; between layers the best hit so far seeds
    /// the next layer.  Every returned pair is a stored embedding that
    /// passes all filters, with its true distance to the query, in
    /// ascending distance order, at most `k` of them.  Recall is
    /// heuristic: how close the hits are to the true nearest neighbors is
    /// not specified.
    pub fn query(
        &self,
        cache: &mut EmbeddingCache,
        store: &BlockStore,
        query: &Query,
        k: usize,
        ef: usize,
    ) -> (r: Result<Vec<(Embedding, i64)>, StoreError>)
        requires
            self.wf(),
            store.wf(),
            old(cache).wf(),
            old(cache).coherent(store),
            store.uniform_dim(query.embedding.data@.len() as nat),
            query.embedding.wf(),
        ensures
            final(cache).wf(),
            final(cache).coherent(store),
            self.v_layers().len() == 0 ==> r is Ok,
            self.v_layers().len() == 0 ==> *final(cache) == *old(cache),
            ef < k && self.v_layers().len() > 0 ==> r == Err::<Vec<(Embedding, i64)>, StoreError>(
                StoreError::InvalidArgument,
            ),
            r is Ok ==> ef >= k || self.v_layers().len() == 0,
            (ef >= k && forall|li: int|
                0 <= li < self.v_layers().len() ==> targets_resolve(
                    #[trigger] self.v_layers()[li],
                    store,
                )) ==> r is Ok,
            match r {
                Ok(res) => {
                    &&& res@.len() <= k
                    &&& self.v_layers().len() == 0 ==> res@.len() == 0
                    &&& forall|i: int|
                        0 <= i < res@.len() ==> graph_hit(
                            store,
                            query.embedding@,
                            query.filters@,
                            self.v_layers(),
                            (#[trigger] res@[i]).0@,
                            res@[i].1,
                        )
                    &&& forall|i: int| 0 <= i < res@.len() - 1 ==> (#[trigger] res@[i]).1 <= res@[i + 1].1
                    &&& ((k >= 1 && exists|li2: int|
                        0 <= li2 < self.v_layers().len() && #[trigger] entry_sees_hit(
                            self.v_layers()[li2],
                            self.entry_id->Some_0,
                            store,
                            query.filters@,
                        )) ==> res@.len() >= 1)
                },
                Err(_) => true,
            },
    {
        // an empty index answers with an empty result before any argument
        // check, as the search has nothing to do
        if self.layers.len() == 0 {
            return Ok(Vec::new());
        }
        if ef < k {
            return Err(StoreError::InvalidArgument);
        }
        let entry = match self.entry_id {
            Some(e) => e,
            None => {
                proof {
                    // without an entry point every layer is empty
                    assert forall|li2: int|
                        0 <= li2 < self.v_layers().len() implies !entry_sees_hit(
                        self.v_layers()[li2],
                        self.entry_id->Some_0,
                        store,
                        query.filters@,
                    ) by {
                        assert(self.v_layers()[li2].len() == 0);
                    }
                }
                return Ok(Vec::new());
            },
        };

        let ghost qv = query.embedding@;
        let ghost fs = query.filters@;
        let ghost lsv = self.v_layers();
        let mut visited: Vec<u64> = Vec::new();
        let mut blacklist: Vec<u64> = Vec::new();
        let mut top_k: Vec<(Embedding, i64)> = Vec::new();
        let mut count: usize = 0;
        let mut current: u64 = entry;

        let mut li: usize = 0;
        while li < self.layers.len()
            invariant
                li <= self.layers@.len(),
                cache.wf(),
                cache.coherent(store),
                lsv == self.v_layers(),
                forall|i: int|
                    0 <= i < top_k@.len() ==> graph_hit(
                        store,
                        qv,
                        fs,
                        lsv,
                        (#[trigger] top_k@[i]).0@,
                        top_k@[i].1,
                    ),
                top_k@.len() <= k,
                k >= 1 ==> (top_k@.len() >= 1 <==> count >= 1),
                (k >= 1 && top_k@.len() == 0) ==> count == 0 && visited@.len() == 0 && current
                    == entry,
                forall|x: int|
                    0 <= x < blacklist@.len() ==> !target_qualifies(
                        store,
                        fs,
                        #[trigger] blacklist@[x],
                    ),
                (k >= 1 && top_k@.len() == 0) ==> forall|li2: int|
                    0 <= li2 < li ==> !entry_sees_hit(#[trigger] lsv[li2], entry, store, fs),
            decreases self.layers@.len() - li,
        {
            let layer = &self.layers[li];
            proof {
                if layer.nodes@.len() == 0 {
                    assert(lsv[li as int].len() == 0);
                    assert(!entry_sees_hit(lsv[li as int], entry, store, fs));
                }
            }
            if layer.nodes.len() > 0 {
                // traversal budget for this layer
                let mut fuel: usize = 1;
                let mut t: usize = 0;
                while t < layer.nodes.len()
                    invariant
                        fuel >= 1,
                    decreases layer.nodes@.len() - t,
                {
                    let extra = layer.nodes[t].neighbors.len();
                    if fuel <= usize::MAX - extra {
                        fuel = fuel + extra;
                    }
                    if fuel < usize::MAX {
                        fuel = fuel + 1;
                    }
                    t = t + 1;
                }

                let mut stack: Vec<u64> = Vec::new();
                stack.push(current);
                proof {
                    assert(stack@ =~= seq![current]);
                }
                while fuel > 0 && stack.len() > 0
                    invariant
                        cache.wf(),
                        cache.coherent(store),
                        li < self.v_layers().len(),
                        lsv == self.v_layers(),
                        forall|i: int|
                            0 <= i < top_k@.len() ==> graph_hit(
                                store,
                                qv,
                                fs,
                                lsv,
                                (#[trigger] top_k@[i]).0@,
                                top_k@[i].1,
                            ),
                        top_k@.len() <= k,
                        k >= 1 ==> (top_k@.len() >= 1 <==> count >= 1),
                        forall|x: int|
                            0 <= x < blacklist@.len() ==> !target_qualifies(
                                store,
                                fs,
                                #[trigger] blacklist@[x],
                            ),
                        (k >= 1 && top_k@.len() == 0) ==> count == 0 && visited@.len() == 0
                            && current == entry,
                        (k >= 1 && top_k@.len() == 0) ==> (stack@ == seq![entry] || (
                        stack@.len() == 0 && !entry_sees_hit(lsv[li as int], entry, store, fs))),
                        (k >= 1 && top_k@.len() == 0 && stack@.len() > 0) ==> fuel >= 1,
                        (k >= 1 && count == 0) ==> forall|li2: int|
                            0 <= li2 < li ==> !entry_sees_hit(
                                #[trigger] lsv[li2],
                                entry,
                                store,
                                fs,
                            ),
                    decreases fuel,
                {
                    fuel = fuel - 1;
                    let ghost fresh = k >= 1 && top_k@.len() == 0;
                    let node = match stack.pop() {
                        Some(x) => x,
                        None => 0,
                    };
                    proof {
                        if fresh {
                            assert(node == entry);
                            assert(stack@ =~= Seq::<u64>::empty());
                        }
                    }
                    let edges = match layer.get(node) {
                        Some(v) => v,
                        None => Vec::new(),
                    };

                    // score the unvisited, filter-passing neighbors
                    let ghost cur_listed = neighbors_of(lsv[li as int], node) == Some(edges@);
                    proof {
                        assert(edges@.len() > 0 ==> cur_listed);
                    }
                    let mut batch: Vec<(Embedding, i64)> = Vec::new();
                    let mut j: usize = 0;
                    while j < edges.len()
                        invariant
                            cache.wf(),
                            cache.coherent(store),
                            li < self.v_layers().len(),
                            lsv == self.v_layers(),
                            cur_listed == (neighbors_of(lsv[li as int], node) == Some(edges@)),
                            edges@.len() > 0 ==> cur_listed,
                            forall|i: int|
                                0 <= i < batch@.len() ==> graph_hit(
                                    store,
                                    qv,
                                    fs,
                                    lsv,
                                    (#[trigger] batch@[i]).0@,
                                    batch@[i].1,
                                ),
                            forall|x: int|
                                0 <= x < blacklist@.len() ==> !target_qualifies(
                                    store,
                                    fs,
                                    #[trigger] blacklist@[x],
                                ),
                            fresh == (k >= 1 && top_k@.len() == 0),
                            fresh ==> (count == 0 && visited@.len() == 0 && node == entry),
                            fresh ==> (batch@.len() == 0 ==> forall|j2: int|
                                0 <= j2 < j ==> !target_qualifies(
                                    store,
                                    fs,
                                    (#[trigger] edges@[j2]).0,
                                )),
                        decreases edges@.len() - j,
                    {
                        let nid = edges[j].0;
                        proof {
                            lemma_neighbors_payload(lsv[li as int], node);
                            let pw = choose|p: int|
                                0 <= p < lsv[li as int].len() && (#[trigger] lsv[li as int][p]).id
                                    == node && lsv[li as int][p].neighbors == neighbors_of(
                                    lsv[li as int],
                                    node,
                                )->Some_0;
                            assert(lsv[li as int][pw].neighbors[j as int].0 == nid);
                            assert(layer_edge_target(lsv[li as int], nid));
                            assert(hit_in_graph(lsv, nid));
                        }
                        let in_blacklist = id_in(&blacklist, nid);
                        let in_visited = id_in(&visited, nid);
                        proof {
                            if in_blacklist {
                                let bx = choose|x: int|
                                    0 <= x < blacklist@.len() && blacklist@[x] == nid;
                                assert(!target_qualifies(store, fs, blacklist@[bx]));
                            }
                        }
                        if !in_blacklist && !in_visited {
                            match cache.get(store, nid) {
                                Ok(e) => {
                                    proof {
                                        crate::store::lemma_lookup_props(
                                            store,
                                            nid,
                                            query.embedding.data@.len() as nat,
                                        );
                                    }
                                    if embedding_passes(&e, &query.filters) {
                                        let d = distance(&query.embedding, &e);
                                        batch.push((e, d));
                                    } else {
                                        blacklist.push(nid);
                                        proof {
                                            assert(!target_qualifies(store, fs, nid));
                                        }
                                    }
                                },
                                Err(e) => {
                                    proof {
                                        // under the success hypothesis every
                                        // referenced id resolves
                                        if ef >= k && forall|l2: int|
                                            0 <= l2 < self.v_layers().len() ==> targets_resolve(
                                                #[trigger] self.v_layers()[l2],
                                                store,
                                            ) {
                                            assert(targets_resolve(lsv[li as int], store));
                                            assert(store.lookup(nid) is Some);
                                            assert(false);
                                        }
                                    }
                                    return Err(e);
                                },
                            }
                        }
                        j = j + 1;
                    }
                    // whether this pop was the untouched entry point that can
                    // see a hit: then the batch cannot be empty
                    let ghost saw = fresh && entry_sees_hit(lsv[li as int], entry, store, fs);
                    proof {
                        if saw {
                            assert(cur_listed);
                            let ns = neighbors_of(lsv[li as int], entry)->Some_0;
                            assert(ns == edges@);
                            let jq = choose|j2: int|
                                0 <= j2 < ns.len() && target_qualifies(
                                    store,
                                    fs,
                                    (#[trigger] ns[j2]).0,
                                );
                            assert(target_qualifies(store, fs, edges@[jq].0));
                            assert(batch@.len() >= 1);
                        }
                    }
                    let batch = sort_hits(batch, Ghost(store), Ghost(qv), Ghost(fs), Ghost(lsv));

                    // fold the batch into the running result set
                    let mut b: usize = 0;
                    while b < batch.len()
                        invariant
                            b <= batch@.len(),
                            cache.wf(),
                            cache.coherent(store),
                            lsv == self.v_layers(),
                            ef >= k,
                            forall|i: int|
                                0 <= i < batch@.len() ==> graph_hit(
                                    store,
                                    qv,
                                    fs,
                                    lsv,
                                    (#[trigger] batch@[i]).0@,
                                    batch@[i].1,
                                ),
                            forall|i: int|
                                0 <= i < top_k@.len() ==> graph_hit(
                                    store,
                                    qv,
                                    fs,
                                    lsv,
                                    (#[trigger] top_k@[i]).0@,
                                    top_k@[i].1,
                                ),
                            top_k@.len() <= k,
                            k >= 1 ==> (top_k@.len() >= 1 <==> count >= 1),
                            forall|x: int|
                                0 <= x < blacklist@.len() ==> !target_qualifies(
                                    store,
                                    fs,
                                    #[trigger] blacklist@[x],
                                ),
                            (k >= 1 && top_k@.len() == 0) ==> count == 0 && visited@.len() == 0
                                && current == entry,
                            (k >= 1 && saw && b >= 1) ==> top_k@.len() >= 1,
                            (fresh && b == 0) ==> (top_k@.len() == 0 && count == 0
                                && visited@.len() == 0),
                            (k >= 1 && top_k@.len() == 0) ==> fresh,
                            saw ==> fresh && batch@.len() >= 1,
                            (k >= 1 && top_k@.len() == 0) ==> stack@.len() == 0,
                            (k >= 1 && count == 0) ==> forall|li2: int|
                                0 <= li2 < li ==> !entry_sees_hit(
                                    #[trigger] lsv[li2],
                                    entry,
                                    store,
                                    fs,
                                ),
                        decreases batch@.len() - b,
                    {
                        let nid = batch[b].0.id;
                        let skip_visited = id_in(&visited, nid);
                        let skip_blacklist = id_in(&blacklist, nid);
                        proof {
                            if skip_blacklist {
                                let bx = choose|x: int|
                                    0 <= x < blacklist@.len() && blacklist@[x] == nid;
                                assert(!target_qualifies(store, fs, blacklist@[bx]));
                                assert(store.lookup(batch@[b as int].0@.id) == Some(
                                    batch@[b as int].0@,
                                ));
                                assert(false);
                            }
                        }
                        if !skip_visited && !skip_blacklist && count < ef {
                            top_k.push((batch[b].0.duplicate(), batch[b].1));
                            stack.push(nid);
                            visited.push(nid);
                            count = count + 1;
                        }
                        if top_k.len() > k {
                            let mut sorted_hits = sort_hits(
                                top_k,
                                Ghost(store),
                                Ghost(qv),
                                Ghost(fs),
                                Ghost(lsv),
                            );
                            while sorted_hits.len() > k
                                invariant
                                    forall|i: int|
                                        0 <= i < sorted_hits@.len() ==> graph_hit(
                                            store,
                                            qv,
                                            fs,
                                            lsv,
                                            (#[trigger] sorted_hits@[i]).0@,
                                            sorted_hits@[i].1,
                                        ),
                                    forall|i: int|
                                        0 <= i < sorted_hits@.len() - 1 ==> (
                                        #[trigger] sorted_hits@[i]).1 <= sorted_hits@[i + 1].1,
                                    sorted_hits@.len() >= k,
                                decreases sorted_hits@.len(),
                            {
                                sorted_hits.pop();
                                proof {
                                    assert(forall|i: int|
                                        0 <= i < sorted_hits@.len() ==> graph_hit(
                                            store,
                                            qv,
                                            fs,
                                            lsv,
                                            (#[trigger] sorted_hits@[i]).0@,
                                            sorted_hits@[i].1,
                                        ));
                                }
                            }
                            top_k = sorted_hits;
                        }
                        if count >= ef {
                            proof {
                                if k >= 1 {
                                    assert(count >= 1);
                                    assert(top_k@.len() >= 1);
                                }
                            }
                            let ghost early_len = top_k@.len();
                            let out = sort_hits(top_k, Ghost(store), Ghost(qv), Ghost(fs), Ghost(lsv));
                            proof {
                                assert(out@.len() == early_len);
                            }
                            return Ok(out);
                        }
                        b = b + 1;
                    }
                    proof {
                        if k >= 1 && top_k@.len() == 0 {
                            assert(fresh);
                            if entry_sees_hit(lsv[li as int], entry, store, fs) {
                                assert(saw);
                                assert(batch@.len() >= 1);
                                assert(false);
                            }
                        }
                    }
                }
                proof {
                    if k >= 1 && top_k@.len() == 0 {
                        // the loop left with an empty stack, so the entry
                        // point was popped and saw no qualifying edge here
                        assert(stack@.len() == 0);
                        assert(!entry_sees_hit(lsv[li as int], entry, store, fs));
                    }
                }
            }
            // the best hit so far starts the next layer
            let sorted_now = sort_hits(top_k, Ghost(store), Ghost(qv), Ghost(fs), Ghost(lsv));
            if sorted_now.len() > 0 {
                current = sorted_now[0].0.id;
            }
            top_k = sorted_now;
            proof {
                if k >= 1 && top_k@.len() == 0 {
                    assert(count == 0);
                    assert forall|li2: int| 0 <= li2 < li + 1 implies !entry_sees_hit(
                        #[trigger] lsv[li2],
                        entry,
                        store,
                        fs,
                    ) by {
                        if li2 == li {
                            assert(!entry_sees_hit(lsv[li as int], entry, store, fs));
                        }
                    }
                }
            }
            li = li + 1;
        }
        proof {
            if k >= 1 && top_k@.len() == 0 {
                assert forall|li2: int| 0 <= li2 < self.v_layers().len() implies !entry_sees_hit(
                    #[trigger] self.v_layers()[li2],
                    self.entry_id->Some_0,
                    store,
                    query.filters@,
                ) by {
                    assert(!entry_sees_hit(lsv[li2], entry, store, fs));
                }
            }
        }
        let ghost tail_len = top_k@.len();
        let out = sort_hits(top_k, Ghost(store), Ghost(qv), Ghost(fs), Ghost(lsv));
        proof {
            assert(out@.len() == tail_len);
        }
        Ok(out)
    }
}

impl HNSW {
    /// Insert one embedding into the index.
    ///
    /// When the node count has outgrown the layer count, a fresh (empty)
    /// top layer seeded with the entry point is added and the thresholds
    /// are recomputed.  One probability is sampled for the node and
    /// compared against every layer's threshold; the node joins each layer
    /// whose threshold it clears (always all of them for the very first
    /// node).  The directory must already list the embedding.
    #[verifier::rlimit(100)]
    pub fn insert(
        &mut self,
        cache: &mut EmbeddingCache,
        store: &BlockStore,
        embedding: &Embedding,
        rng: &mut rand::rngs::StdRng,
    ) -> (r: Result<(), StoreError>)
        requires
            old(self).wf(),
            old(self).size < u32::MAX,
            store.wf(),
            old(cache).wf(),
            old(cache).coherent(store),
            store.uniform_dim(embedding.data@.len() as nat),
            embedding.wf(),
        ensures
            final(self).wf(),
            final(cache).wf(),
            final(cache).coherent(store),
            r is Ok ==> final(self).size == old(self).size + 1,
            r is Ok ==> final(self).entry_id == (if old(self).entry_id is Some {
                old(self).entry_id
            } else {
                Some(embedding@.id)
            }),
            r is Ok ==> exists|prob: u64|
                prob < UNIT && #[trigger] insert_outcome(
                    *old(self),
                    *final(self),
                    store,
                    embedding@,
                    prob,
                ),
            insert_inputs_resolve(*old(self), store, embedding@) ==> r is Ok,
            r is Err ==> final(self).size == old(self).size,
    {
        // grow a new top layer when the node count has outgrown the stack
        let n0: usize = if self.size < 1 {
            1
        } else {
            self.size as usize
        };
        let lg0 = log2_floor(n0);
        let needs_growth = self.layers.len() == 0 || (self.size >= 1 && lg0 > self.layers.len());
        let ghost entry0 = old(self).entry_id;
        if needs_growth {
            let lgm: usize = if lg0 < 1 {
                1
            } else {
                lg0
            };
            let mut new_layer = Layer::empty();
            match self.entry_id {
                Some(e) => {
                    new_layer.nodes.push(GraphNode { id: e, neighbors: Vec::new() });
                },
                None => {},
            }
            let ghost nv = new_layer@;
            self.layers.insert(0, new_layer);
            self.thresholds = compute_thresholds(lgm);
            proof {
                assert(nv =~~= seeded_layer(entry0));
                assert(self.v_layers() =~= seq![nv] + old(self).v_layers()) by {
                    assert(forall|i: int|
                        1 <= i < self.layers@.len() ==> self.layers@[i] == old(self).layers@[i
                            - 1]);
                    assert(forall|i: int|
                        1 <= i < self.layers@.len() ==> #[trigger] self.v_layers()[i] == old(
                            self,
                        ).v_layers()[i - 1]);
                }
                assert forall|i: int| 0 <= i < self.v_layers().len() implies layer_wf(
                    #[trigger] self.v_layers()[i],
                ) by {
                    assert(self.v_layers()[i] == self.layers@[i]@);
                    if i == 0 {
                        assert(self.layers@[0]@ == nv);
                        assert(nv.len() <= 1);
                    } else {
                        assert(self.layers@[i] == old(self).layers@[i - 1]);
                        assert(old(self).v_layers()[i - 1] == old(self).layers@[i - 1]@);
                        assert(layer_wf(old(self).v_layers()[i - 1]));
                    }
                }
            }
        }
        let ghost midv = self.v_layers();
        let ghost thrv = self.thresholds@;

        let was_none = match self.entry_id {
            Some(_) => false,
            None => true,
        };
        if was_none {
            self.entry_id = Some(embedding.id);
        }
        let eid = match self.entry_id {
            Some(e) => e,
            None => embedding.id,
        };

        let ghost entry_after = self.entry_id;
        let prob = crate::outside::next_unit(rng);
        let mut j: usize = 0;
        while j < self.layers.len()
            invariant
                j <= midv.len(),
                self.entry_id == entry_after,
                entry_after is Some,
                eid == (match entry0 {
                    Some(e) => e,
                    None => embedding@.id,
                }),
                was_none == (entry0 is None),
                self.size == old(self).size,
                self.thresholds@ == thrv,
                self.v_layers().len() == midv.len(),
                cache.wf(),
                cache.coherent(store),
                forall|i: int| 0 <= i < self.v_layers().len() ==> layer_wf(
                    #[trigger] self.v_layers()[i],
                ),
                forall|p: int|
                    0 <= p < j ==> step_layer_ok(
                        thrv,
                        prob,
                        entry0,
                        midv,
                        #[trigger] self.v_layers()[p],
                        p,
                        store,
                        embedding@,
                        eid,
                    ),
                forall|p: int| j <= p < midv.len() ==> #[trigger] self.v_layers()[p] == midv[p],
            decreases self.layers@.len() - j,
        {
            let hit = was_none || j == self.layers.len() - 1 || (j < self.thresholds.len()
                && prob < self.thresholds[j]);
            proof {
                assert(hit == insert_hits_layer(thrv, prob, entry0, midv.len() as int, j as int));
            }
            if hit {
                let ghost layers0 = self.layers@;
                proof {
                    assert forall|i: int| 0 <= i < layers0.len() implies layer_wf(
                        (#[trigger] layers0[i])@,
                    ) by {
                        assert(layer_wf(self.v_layers()[i]));
                        assert(self.v_layers()[i] == layers0[i]@);
                    }
                    assert forall|i: int| 0 <= i < layers0.len() implies step_done_or_mid(
                        thrv,
                        prob,
                        entry0,
                        midv,
                        (#[trigger] layers0[i])@,
                        i,
                        j as int,
                        store,
                        embedding@,
                        eid,
                    ) by {
                        assert(self.v_layers()[i] == layers0[i]@);
                        if i < j {
                            assert(step_layer_ok(
                                thrv,
                                prob,
                                entry0,
                                midv,
                                self.v_layers()[i],
                                i,
                                store,
                                embedding@,
                                eid,
                            ));
                        } else {
                            assert(self.v_layers()[i] == midv[i]);
                        }
                    }
                    assert(self.v_layers()[j as int] == layers0[j as int]@);
                    assert(self.v_layers()[j as int] == midv[j as int]);
                }
                let mut layer = self.layers.remove(j);
                proof {
                    assert(layer == layers0[j as int]);
                    assert(layer_wf(layer@));
                    assert(layer@ == midv[j as int]);
                }
                let outcome = insert_into_layer(cache, store, eid, &mut layer, embedding, DEFAULT_EF);
                let ghost lfinal = layer@;
                self.layers.insert(j, layer);
                proof {
                    assert(self.layers@ =~= layers0.update(j as int, self.layers@[j as int]));
                    assert(self.layers@[j as int]@ == lfinal);
                    assert forall|i: int| 0 <= i < self.v_layers().len() implies layer_wf(
                        #[trigger] self.v_layers()[i],
                    ) by {
                        assert(self.v_layers()[i] == self.layers@[i]@);
                        if i != j {
                            assert(self.layers@[i] == layers0[i]);
                            assert(layer_wf(layers0[i]@));
                        } else {
                            assert(self.layers@[j as int]@ == lfinal);
                            assert(layer_wf(lfinal));
                        }
                    }
                    assert(forall|i: int|
                        0 <= i < self.v_layers().len() && i != j ==> #[trigger] self.v_layers()[i]
                            == layers0[i]@);
                    assert forall|p: int| 0 <= p < j implies step_layer_ok(
                        thrv,
                        prob,
                        entry0,
                        midv,
                        #[trigger] self.v_layers()[p],
                        p,
                        store,
                        embedding@,
                        eid,
                    ) by {
                        assert(self.v_layers()[p] == layers0[p]@);
                        assert(step_done_or_mid(
                            thrv,
                            prob,
                            entry0,
                            midv,
                            layers0[p]@,
                            p,
                            j as int,
                            store,
                            embedding@,
                            eid,
                        ));
                    }
                    assert forall|p: int| j < p < midv.len() implies #[trigger] self.v_layers()[p]
                        == midv[p] by {
                        assert(self.v_layers()[p] == layers0[p]@);
                        assert(step_done_or_mid(
                            thrv,
                            prob,
                            entry0,
                            midv,
                            layers0[p]@,
                            p,
                            j as int,
                            store,
                            embedding@,
                            eid,
                        ));
                    }
                }
                match outcome {
                    Ok(_) => {},
                    Err(e) => {
                        proof {
                            if insert_inputs_resolve(*old(self), store, embedding@) {
                                // the entry id resolves
                                assert(store.lookup(eid) is Some);
                                // and so does every edge target of this layer
                                if needs_growth {
                                    assert(midv == seq![seeded_layer(entry0)]
                                        + old(self).v_layers());
                                    if j == 0 {
                                        assert(targets_resolve(seeded_layer(entry0), store)) by {
                                            match entry0 {
                                                Some(x) => {
                                                    assert(seeded_layer(entry0)[0].neighbors.len()
                                                        == 0);
                                                },
                                                None => {},
                                            }
                                        }
                                        assert(midv[0] == seeded_layer(entry0));
                                    } else {
                                        assert(midv[j as int] == old(self).v_layers()[j - 1]);
                                        assert(targets_resolve(
                                            old(self).v_layers()[j - 1],
                                            store,
                                        ));
                                    }
                                } else {
                                    assert(midv[j as int] == old(self).v_layers()[j as int]);
                                    assert(targets_resolve(old(self).v_layers()[j as int], store));
                                }
                                assert(targets_resolve(midv[j as int], store));
                                assert(false);
                            }
                        }
                        return Err(e);
                    },
                }
                proof {
                    assert(layer_inserted(
                        midv[j as int],
                        lfinal,
                        store,
                        embedding@,
                        eid,
                        DEFAULT_EF as int,
                    ));
                    assert(step_layer_ok(
                        thrv,
                        prob,
                        entry0,
                        midv,
                        self.v_layers()[j as int],
                        j as int,
                        store,
                        embedding@,
                        eid,
                    ));
                }
            } else {
                proof {
                    assert(self.v_layers()[j as int] == midv[j as int]);
                    assert(step_layer_ok(
                        thrv,
                        prob,
                        entry0,
                        midv,
                        self.v_layers()[j as int],
                        j as int,
                        store,
                        embedding@,
                        eid,
                    ));
                }
            }
            j = j + 1;
        }

        self.size = self.size + 1;
        proof {
            let ghost pre = *old(self);
            assert(is_log2(size_floor(pre.size), lg0 as int));
            let grown_s = pre.layers@.len() == 0 || (pre.size >= 1 && lg0 as int
                > pre.layers@.len());
            assert(grown_s == needs_growth);
            if needs_growth {
                assert(midv == seq![seeded_layer(pre.entry_id)] + pre.v_layers());
                assert(thrv.len() == (if lg0 as int >= 1 {
                    lg0 as int
                } else {
                    1
                }));
            } else {
                assert(midv == pre.v_layers());
                assert(thrv == pre.thresholds@);
            }
            assert(insert_outcome(pre, *self, store, embedding@, prob));
        }
        Ok(())
    }

    /// Load or rebuild the index.
    ///
    /// With `reindex` false the encoded index is decoded (an absent file
    /// means an empty index).  With `reindex` true the whole directory is
    /// walked: every id is fetched through the cache and inserted into
    /// each layer whose threshold its sampled probability clears, the
    /// first id becoming the entry point.
    pub fn new(
        reindex: bool,
        index_bytes: Option<&Vec<u8>>,
        store: &BlockStore,
        cache: &mut EmbeddingCache,
        rng: &mut rand::rngs::StdRng,
        dim: usize,
    ) -> (r: Result<HNSW, StoreError>)
        requires
            store.wf(),
            old(cache).wf(),
            old(cache).coherent(store),
            store.uniform_dim(dim as nat),
            store.v_dir().len() <= u32::MAX,
        ensures
            final(cache).wf(),
            final(cache).coherent(store),
            match r {
                Ok(h) => h.wf(),
                Err(_) => true,
            },
            !reindex && index_bytes is None ==> match r {
                Ok(h) => h.size == 0 && h.v_layers().len() == 0 && h.entry_id is None
                    && h.thresholds@.len() == 0,
                Err(_) => false,
            },
            !reindex ==> match index_bytes {
                Some(b) => match r {
                    Ok(h) => crate::codec::index_decodes_to(b@, &h),
                    Err(e) => e == StoreError::Corrupt && crate::codec::index_decode_fails(b@),
                },
                None => true,
            },
            reindex && store.dir_resolves() ==> r is Ok,
            reindex && r is Ok ==> match r {
                Ok(h) => {
                    &&& h.size == store.v_dir().len()
                    &&& (store.v_dir().len() == 0 ==> h.v_layers().len() == 0 && h.entry_id
                        is None && h.thresholds@.len() == 0)
                    &&& (store.v_dir().len() > 0 ==> h.entry_id is Some && exists|lg: int|
                        #[trigger] is_log2(store.v_dir().len() as int, lg) && (if lg == 0 {
                            h.v_layers().len() == 0 && h.thresholds@.len() == 0
                        } else {
                            h.v_layers().len() == lg && h.thresholds@.len() == lg && (forall|t: int|
                                0 <= t < lg ==> #[trigger] h.thresholds@[t] == threshold_spec(
                                    lg,
                                    t,
                                )) && (forall|dd: int|
                                0 <= dd < store.v_dir().len() ==> neighbors_of(
                                    h.v_layers()[lg - 1],
                                    (#[trigger] store.v_dir()[dd]).id,
                                ) is Some)
                        }))
                },
                Err(_) => true,
            },
    {
        if !reindex {
            match index_bytes {
                None => {
                    return Ok(HNSW::empty());
                },
                Some(bytes) => {
                    return HNSW::deserialize(bytes);
                },
            }
        }

        let n = store.directory.len();
        if n == 0 {
            return Ok(HNSW::empty());
        }
        let l = log2_floor(n);
        proof {
            assert(is_log2(store.v_dir().len() as int, l as int));
        }
        if l == 0 {
            // a single node: no layers, only the entry point
            let mut h = HNSW::empty();
            h.size = n as u32;
            h.entry_id = Some(store.directory.entries[0].id);
            return Ok(h);
        }
        let thresholds = compute_thresholds(l);
        let mut layers: Vec<Layer> = Vec::new();
        let mut t: usize = 0;
        while t < l
            invariant
                t <= l,
                layers@.len() == t,
                forall|i: int| 0 <= i < t ==> layer_wf(#[trigger] layers_view(layers@)[i]),
                forall|i: int|
                    0 <= i < t ==> targets_resolve(#[trigger] layers_view(layers@)[i], store),
            decreases l - t,
        {
            let ghost lprev = layers@;
            layers.push(Layer::empty());
            proof {
                assert(layers@.last()@.len() == 0);
                assert forall|i: int| 0 <= i < t + 1 implies layer_wf(
                    #[trigger] layers_view(layers@)[i],
                ) && targets_resolve(#[trigger] layers_view(layers@)[i], store) by {
                    assert(layers_view(layers@)[i] == layers@[i]@);
                    if i == t {
                        assert(layers@[i]@.len() == 0);
                    } else {
                        assert(layers@[i] == lprev[i]);
                        assert(layers_view(lprev)[i] == lprev[i]@);
                        assert(layer_wf(layers_view(lprev)[i]));
                        assert(targets_resolve(layers_view(lprev)[i], store));
                    }
                }
            }
            t = t + 1;
        }

        let mut entry_id: Option<u64> = None;
        let mut d: usize = 0;
        while d < n
            invariant
                d <= n,
                n == store.v_dir().len(),
                cache.wf(),
                cache.coherent(store),
                layers@.len() == l,
                forall|i: int| 0 <= i < l ==> layer_wf(#[trigger] layers_view(layers@)[i]),
                forall|i: int|
                    0 <= i < l ==> targets_resolve(#[trigger] layers_view(layers@)[i], store),
                match entry_id {
                    Some(e) => store.lookup(e) is Some,
                    None => true,
                },
                thresholds@.len() == l,
                d > 0 ==> entry_id is Some,
                forall|dd: int|
                    0 <= dd < d ==> neighbors_of(
                        layers_view(layers@)[l - 1],
                        (#[trigger] store.v_dir()[dd]).id,
                    ) is Some,
            decreases n - d,
        {
            let id = store.directory.entries[d].id;
            let prob = crate::outside::next_unit(rng);
            let node = match cache.get(store, id) {
                Ok(e) => e,
                Err(e) => {
                    proof {
                        if store.dir_resolves() {
                            assert(store.v_dir()[d as int].id == id);
                            assert(store.lookup(id) is Some);
                            assert(false);
                        }
                    }
                    return Err(e);
                },
            };
            proof {
                crate::store::lemma_lookup_props(store, id, dim as nat);
                assert(node.data@.len() == dim);
                assert(node@.id == id);
                assert(store.lookup(node@.id) == Some(node@));
            }
            let mut j: usize = 0;
            while j < l
                invariant
                    j <= l,
                    cache.wf(),
                    cache.coherent(store),
                    layers@.len() == l,
                    forall|i: int| 0 <= i < l ==> layer_wf(#[trigger] layers_view(layers@)[i]),
                    forall|i: int|
                        0 <= i < l ==> targets_resolve(#[trigger] layers_view(layers@)[i], store),
                    match entry_id {
                        Some(e) => store.lookup(e) is Some,
                        None => true,
                    },
                    thresholds@.len() == l,
                    node.wf(),
                    node.data@.len() == dim,
                    store.lookup(node@.id) == Some(node@),
                    forall|dd: int|
                        0 <= dd < d ==> neighbors_of(
                            layers_view(layers@)[l - 1],
                            (#[trigger] store.v_dir()[dd]).id,
                        ) is Some,
                    j >= l ==> neighbors_of(layers_view(layers@)[l - 1], node@.id) is Some,
                decreases l - j,
            {
                let entry_missing = match entry_id {
                    Some(_) => false,
                    None => true,
                };
                if prob < thresholds[j] || entry_missing || j == l - 1 {
                    let eid = match entry_id {
                        Some(e) => e,
                        None => node.id,
                    };
                    let ghost layers0 = layers@;
                    proof {
                        assert forall|i: int| 0 <= i < layers0.len() implies layer_wf(
                            (#[trigger] layers0[i])@,
                        ) && targets_resolve((#[trigger] layers0[i])@, store) by {
                            assert(layer_wf(layers_view(layers@)[i]));
                            assert(targets_resolve(layers_view(layers@)[i], store));
                            assert(layers_view(layers@)[i] == layers0[i]@);
                        }
                        assert(store.lookup(eid) is Some);
                    }
                    let mut layer = layers.remove(j);
                    proof {
                        assert(layer == layers0[j as int]);
                        assert(layer_wf(layer@));
                        assert(targets_resolve(layer@, store));
                    }
                    let outcome = insert_into_layer(cache, store, eid, &mut layer, &node, DEFAULT_EF);
                    let ghost lfinal = layer@;
                    layers.insert(j, layer);
                    proof {
                        assert(layers@ =~= layers0.update(j as int, layers@[j as int]));
                        assert(layers@[j as int]@ == lfinal);
                        assert forall|i: int| 0 <= i < l implies layer_wf(
                            #[trigger] layers_view(layers@)[i],
                        ) by {
                            assert(layers_view(layers@)[i] == layers@[i]@);
                            if i != j {
                                assert(layers@[i] == layers0[i]);
                                assert(layer_wf(layers0[i]@));
                            } else {
                                assert(layers@[j as int]@ == lfinal);
                                assert(layer_wf(lfinal));
                            }
                        }
                    }
                    match outcome {
                        Ok(_) => {},
                        Err(e) => {
                            proof {
                                // the entry id and every edge target of the
                                // layer resolve, so this call cannot fail
                                assert(false);
                            }
                            return Err(e);
                        },
                    }
                    proof {
                        assert(targets_resolve(lfinal, store));
                        assert forall|i: int| 0 <= i < l implies targets_resolve(
                            #[trigger] layers_view(layers@)[i],
                            store,
                        ) by {
                            assert(layers_view(layers@)[i] == layers@[i]@);
                            if i != j {
                                assert(layers@[i] == layers0[i]);
                                assert(targets_resolve(layers0[i]@, store));
                            }
                        }
                        // bottom-layer keys survive this step
                        if j == l - 1 {
                            lemma_layer_inserted_keys(
                                layers0[j as int]@,
                                lfinal,
                                store,
                                node@,
                                eid,
                                DEFAULT_EF as int,
                            );
                            assert(layers_view(layers@)[l - 1] == lfinal);
                            assert forall|dd: int| 0 <= dd < d implies neighbors_of(
                                layers_view(layers@)[l - 1],
                                (#[trigger] store.v_dir()[dd]).id,
                            ) is Some by {
                                assert(layers_view(layers0)[l - 1] == layers0[l - 1]@);
                                assert(neighbors_of(
                                    layers0[l - 1]@,
                                    store.v_dir()[dd].id,
                                ) is Some);
                            }
                            assert(neighbors_of(layers_view(layers@)[l - 1], node@.id) is Some);
                        } else {
                            assert(layers@[l - 1] == layers0[l - 1]);
                            assert(layers_view(layers@)[l - 1] == layers0[l - 1]@);
                            assert forall|dd: int| 0 <= dd < d implies neighbors_of(
                                layers_view(layers@)[l - 1],
                                (#[trigger] store.v_dir()[dd]).id,
                            ) is Some by {
                                assert(neighbors_of(
                                    layers0[l - 1]@,
                                    store.v_dir()[dd].id,
                                ) is Some);
                            }
                        }
                    }
                }
                j = j + 1;
            }
            if entry_missing_check(&entry_id) {
                entry_id = Some(node.id);
            }
            proof {
                assert(neighbors_of(layers_view(layers@)[l - 1], node@.id) is Some);
                assert(node@.id == store.v_dir()[d as int].id);
            }
            d = d + 1;
        }

        let h = HNSW { size: n as u32, layers, entry_id, thresholds };
        proof {
            assert(h.entry_id is Some ==> h.wf());
            if h.entry_id is None {
                assert(n > 0);
                assert(false);
            }
            assert(is_log2(store.v_dir().len() as int, l as int));
            assert(h.v_layers().len() == l);
            assert(h.thresholds@.len() == l);
            assert(forall|dd: int|
                0 <= dd < store.v_dir().len() ==> neighbors_of(
                    h.v_layers()[l - 1],
                    (#[trigger] store.v_dir()[dd]).id,
                ) is Some);
        }
        Ok(h)
    }
}

/// Whether the entry point is still unset.
fn entry_missing_check(e: &Option<u64>) -> (r: bool)
    ensures
        r == (e is None),
{
    match e {
        Some(_) => false,
        None => true,
    }
}

} // verus!
