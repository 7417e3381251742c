//! Embeddings: fixed-point vectors with identity and source metadata.
//!
//! A real vector component `x` is stored as the integer `x * SCALE`.  After
//! normalization every component lies in `[-SCALE, SCALE]`, so dot products
//! of stored vectors fit comfortably in `i64` for any dimension up to
//! `MAX_DIM`.

use vstd::prelude::*;
use vstd::arithmetic::div_mod::lemma_div_is_ordered;
use vstd::arithmetic::div_mod::lemma_div_multiples_vanish;

use crate::{MAX_DIM, RAW_BOUND, SCALE, SCALE_SQ};

verus! {

/// Where an embedding came from: a file, an optional byte range inside it,
/// and a set of short metadata tags used for query filtering.
#[derive(Debug)]
pub struct EmbeddingSource {
    pub filepath: String,
    pub meta: Vec<String>,
    pub subset: Option<(u64, u64)>,
}

/// The sequence of tag contents of a list of tag strings.
pub open spec fn strings_view(v: Seq<String>) -> Seq<Seq<char>> {
    Seq::new(v.len(), |i: int| v[i]@)
}

/// Mathematical image of an `EmbeddingSource`.
#[verifier::ext_equal]
pub ghost struct SourceView {
    pub filepath: Seq<char>,
    pub meta: Seq<Seq<char>>,
    pub subset: Option<(u64, u64)>,
}

impl View for EmbeddingSource {
    type V = SourceView;

    open spec fn view(&self) -> SourceView {
        SourceView {
            filepath: self.filepath@,
            meta: strings_view(self.meta@),
            subset: self.subset,
        }
    }
}

/// One stored vector: an id assigned by the store, the fixed-point
/// components, and the source it was embedded from.
#[derive(Debug)]
pub struct Embedding {
    pub id: u64,
    pub data: Vec<i64>,
    pub source_file: EmbeddingSource,
}

/// Mathematical image of an `Embedding`.
#[verifier::ext_equal]
pub ghost struct EmbeddingView {
    pub id: u64,
    pub data: Seq<i64>,
    pub source_file: SourceView,
}

impl View for Embedding {
    type V = EmbeddingView;

    open spec fn view(&self) -> EmbeddingView {
        EmbeddingView { id: self.id, data: self.data@, source_file: self.source_file@ }
    }
}

/// Every component of a stored (normalized) vector lies in `[-SCALE, SCALE]`.
pub open spec fn unit_bounded(s: Seq<i64>) -> bool {
    forall|i: int| 0 <= i < s.len() ==> -SCALE <= #[trigger] s[i] <= SCALE
}

/// Bound on raw vector components accepted by `normalize`.
pub open spec fn raw_bounded(s: Seq<i64>) -> bool {
    forall|i: int| 0 <= i < s.len() ==> -RAW_BOUND <= #[trigger] s[i] <= RAW_BOUND
}

impl Embedding {
    /// A vector the index and cache can operate on: bounded dimension and
    /// normalized (unit-cube) components.
    pub open spec fn wf(&self) -> bool {
        &&& self.data@.len() <= MAX_DIM
        &&& unit_bounded(self.data@)
    }
}

/// Sum of `a[i] * b[i]` over the first `n` components.
pub open spec fn dot_prefix(a: Seq<i64>, b: Seq<i64>, n: int) -> int
    decreases n,
{
    if n <= 0 {
        0
    } else {
        dot_prefix(a, b, n - 1) + a[n - 1] * b[n - 1]
    }
}

/// The full fixed-point dot product of two equal-length vectors.
pub open spec fn spec_dot(a: Seq<i64>, b: Seq<i64>) -> int {
    dot_prefix(a, b, a.len() as int)
}

/// Cosine distance of two normalized vectors, in `SCALE * SCALE` units:
/// the image of `1 - dot(a, b)`.
pub open spec fn spec_distance(a: Seq<i64>, b: Seq<i64>) -> int {
    SCALE_SQ - spec_dot(a, b)
}

/// Sum of squares of the first `n` components.
pub open spec fn sq_prefix(a: Seq<i64>, n: int) -> int
    decreases n,
{
    if n <= 0 {
        0
    } else {
        sq_prefix(a, n - 1) + a[n - 1] * a[n - 1]
    }
}

/// Squared fixed-point norm of a vector.
pub open spec fn norm_sq(a: Seq<i64>) -> int {
    sq_prefix(a, a.len() as int)
}

/// `r` is the integer square root of `s`.
pub open spec fn sqrt_rel(s: int, r: int) -> bool {
    &&& 0 <= r
    &&& r * r <= s
    &&& s < (r + 1) * (r + 1)
}

/// Truncating division of `x * SCALE` by `r`, as Rust integer division
/// computes it (toward zero).
pub open spec fn scaled_component(x: i64, r: int) -> int {
    if x >= 0 {
        (x * SCALE) / r
    } else {
        -(((-x) * SCALE) / r)
    }
}

/// The vector `s` scaled so that its norm is close to `SCALE`.
pub open spec fn normalized_seq(s: Seq<i64>, r: int) -> Seq<i64> {
    Seq::new(s.len(), |i: int| scaled_component(s[i], r) as i64)
}

/// `out` is what normalizing `inp` produces: the zero vector is unchanged,
/// any other vector is scaled by `SCALE` over its integer square-root norm.
pub open spec fn is_normalization_of(out: Seq<i64>, inp: Seq<i64>) -> bool {
    if norm_sq(inp) == 0 {
        out == inp
    } else {
        exists|r: int| #[trigger] sqrt_rel(norm_sq(inp), r) && out == normalized_seq(inp, r)
    }
}

proof fn lemma_mul_bound(x: int, y: int, m: int)
    requires
        -m <= x <= m,
        -m <= y <= m,
        0 <= m,
    ensures
        -(m * m) <= x * y <= m * m,
{
    assert(-(m * m) <= x * y <= m * m) by (nonlinear_arith)
        requires
            -m <= x <= m,
            -m <= y <= m,
            0 <= m,
    ;
}

proof fn lemma_square_nonneg(x: int)
    ensures
        0 <= x * x,
{
    assert(0 <= x * x) by (nonlinear_arith);
}

proof fn lemma_dot_prefix_bound(a: Seq<i64>, b: Seq<i64>, n: int)
    requires
        0 <= n <= a.len(),
        n <= b.len(),
        unit_bounded(a),
        unit_bounded(b),
    ensures
        -(n * SCALE_SQ) <= dot_prefix(a, b, n) <= n * SCALE_SQ,
    decreases n,
{
    if n <= 0 {
    } else {
        lemma_dot_prefix_bound(a, b, n - 1);
        lemma_mul_bound(a[n - 1] as int, b[n - 1] as int, SCALE as int);
        assert(SCALE as int * SCALE as int == SCALE_SQ as int) by (nonlinear_arith)
            requires
                SCALE as int == 16777216,
                SCALE_SQ as int == 16777216 * 16777216,
        ;
    }
}

proof fn lemma_sq_prefix_nonneg(a: Seq<i64>, n: int)
    ensures
        0 <= sq_prefix(a, n),
    decreases n,
{
    if n <= 0 {
    } else {
        lemma_sq_prefix_nonneg(a, n - 1);
        lemma_square_nonneg(a[n - 1] as int);
    }
}

proof fn lemma_sq_prefix_bound(a: Seq<i64>, n: int)
    requires
        0 <= n <= a.len(),
        raw_bounded(a),
    ensures
        0 <= sq_prefix(a, n) <= n * (RAW_BOUND * RAW_BOUND),
    decreases n,
{
    if n <= 0 {
    } else {
        lemma_sq_prefix_bound(a, n - 1);
        lemma_mul_bound(a[n - 1] as int, a[n - 1] as int, RAW_BOUND as int);
        lemma_square_nonneg(a[n - 1] as int);
        assert((n - 1) * (RAW_BOUND * RAW_BOUND) + RAW_BOUND * RAW_BOUND
            == n * (RAW_BOUND * RAW_BOUND)) by (nonlinear_arith);
    }
}

/// Each squared term is at most the sum of squares of any longer prefix.
proof fn lemma_sq_term_le(a: Seq<i64>, i: int, n: int)
    requires
        0 <= i < n,
    ensures
        a[i] * a[i] <= sq_prefix(a, n),
    decreases n,
{
    lemma_sq_prefix_nonneg(a, i);
    if i == n - 1 {
    } else {
        lemma_sq_term_le(a, i, n - 1);
        lemma_square_nonneg(a[n - 1] as int);
    }
}

/// A zero sum of squares forces every component to be zero.
proof fn lemma_sq_prefix_zero(a: Seq<i64>, n: int)
    requires
        sq_prefix(a, n) == 0,
    ensures
        forall|i: int| 0 <= i < n ==> a[i] == 0,
{
    assert forall|i: int| 0 <= i < n implies a[i] == 0 by {
        lemma_sq_term_le(a, i, n);
        assert(a[i] * a[i] <= 0);
        assert(a[i] == 0) by (nonlinear_arith)
            requires
                a[i] * a[i] <= 0,
        ;
    }
}

/// The cap under which `isqrt_u128` is proved correct: `ISQRT_ROOT` squared.
pub const ISQRT_CAP: u128 = 2305843009213693952 * 2305843009213693952;

/// An upper bound (exclusive) on any root `isqrt_u128` can return.
pub const ISQRT_ROOT: u128 = 2305843009213693952;

/// Integer square root by binary search.
///
/// Returns the unique `r` with `r * r <= n < (r + 1) * (r + 1)`.
pub fn isqrt_u128(n: u128) -> (r: u128)
    requires
        n < ISQRT_CAP,
    ensures
        sqrt_rel(n as int, r as int),
{
    let mut lo: u128 = 0;
    let mut hi: u128 = ISQRT_ROOT;
    while hi - lo > 1
        invariant
            lo < hi <= ISQRT_ROOT,
            (lo as int) * (lo as int) <= n as int,
            (n as int) < (hi as int) * (hi as int),
        decreases hi - lo,
    {
        let mid = lo + (hi - lo) / 2;
        proof {
            assert((mid as int) * (mid as int) <= (ISQRT_ROOT as int) * (ISQRT_ROOT as int))
                by (nonlinear_arith)
                requires
                    0 <= mid as int <= ISQRT_ROOT as int,
            ;
        }
        if mid * mid <= n {
            lo = mid;
        } else {
            hi = mid;
        }
    }
    lo
}

/// Fixed-point dot product of two equal-length normalized vectors.
pub fn dot(a: &Embedding, b: &Embedding) -> (r: i64)
    requires
        a.wf(),
        b.wf(),
        a.data@.len() == b.data@.len(),
    ensures
        r == spec_dot(a.data@, b.data@),
{
    let n = a.data.len();
    let mut sum: i64 = 0;
    let mut i: usize = 0;
    while i < n
        invariant
            i <= n,
            n == a.data@.len() == b.data@.len(),
            a.wf(),
            b.wf(),
            sum == dot_prefix(a.data@, b.data@, i as int),
            -((i as int) * SCALE_SQ) <= sum as int <= (i as int) * SCALE_SQ,
        decreases n - i,
    {
        proof {
            lemma_mul_bound(a.data@[i as int] as int, b.data@[i as int] as int, SCALE as int);
            assert((i as int) * SCALE_SQ + SCALE_SQ == (i as int + 1) * SCALE_SQ) by (nonlinear_arith);
            assert((i as int + 1) * SCALE_SQ <= MAX_DIM * SCALE_SQ) by (nonlinear_arith)
                requires
                    i as int + 1 <= MAX_DIM as int,
            ;
        }
        sum = sum + a.data[i] * b.data[i];
        i = i + 1;
    }
    sum
}

/// Fixed-point cosine distance `SCALE * SCALE - dot(a, b)`.
pub fn distance(a: &Embedding, b: &Embedding) -> (r: i64)
    requires
        a.wf(),
        b.wf(),
        a.data@.len() == b.data@.len(),
    ensures
        r == spec_distance(a.data@, b.data@),
{
    proof {
        lemma_dot_prefix_bound(a.data@, b.data@, a.data@.len() as int);
        assert((a.data@.len() as int) * SCALE_SQ <= MAX_DIM * SCALE_SQ) by (nonlinear_arith)
            requires
                a.data@.len() as int <= MAX_DIM as int,
        ;
    }
    SCALE_SQ - dot(a, b)
}

/// Scale a vector in place so that its L2 norm becomes (approximately) one,
/// i.e. `SCALE` in fixed-point units.  The zero vector is left unchanged.
pub fn normalize(embedding: &mut Embedding)
    requires
        old(embedding).data@.len() <= MAX_DIM,
        raw_bounded(old(embedding).data@),
    ensures
        final(embedding).id == old(embedding).id,
        final(embedding).source_file == old(embedding).source_file,
        final(embedding).data@.len() == old(embedding).data@.len(),
        unit_bounded(final(embedding).data@),
        is_normalization_of(final(embedding).data@, old(embedding).data@),
{
    let ghost orig: Seq<i64> = embedding.data@;
    let n = embedding.data.len();

    // Sum of squares, exactly, in 128 bits.
    let mut sum: u128 = 0;
    let mut i: usize = 0;
    while i < n
        invariant
            i <= n,
            n == embedding.data@.len(),
            embedding.data@ == orig,
            n <= MAX_DIM,
            raw_bounded(orig),
            sum as int == sq_prefix(orig, i as int),
            sum as int <= (i as int) * (RAW_BOUND * RAW_BOUND),
        decreases n - i,
    {
        let x = embedding.data[i];
        let m: u64 = if x >= 0 { x as u64 } else { (-x) as u64 };
        proof {
            lemma_mul_bound(x as int, x as int, RAW_BOUND as int);
            assert((m as int) * (m as int) == (x as int) * (x as int)) by (nonlinear_arith)
                requires
                    m as int == if x as int >= 0 { x as int } else { -(x as int) },
            ;
            assert((i as int) * (RAW_BOUND * RAW_BOUND) + RAW_BOUND * RAW_BOUND
                == (i as int + 1) * (RAW_BOUND * RAW_BOUND)) by (nonlinear_arith);
            assert((i as int + 1) * (RAW_BOUND * RAW_BOUND) <= MAX_DIM * (RAW_BOUND * RAW_BOUND))
                by (nonlinear_arith)
                requires
                    i as int + 1 <= MAX_DIM as int,
            ;
        }
        sum = sum + (m as u128) * (m as u128);
        i = i + 1;
    }

    proof {
        assert(sum as int <= (n as int) * (RAW_BOUND * RAW_BOUND));
        assert((n as int) * (RAW_BOUND * RAW_BOUND) <= MAX_DIM * (RAW_BOUND * RAW_BOUND))
            by (nonlinear_arith)
            requires
                n as int <= MAX_DIM as int,
                RAW_BOUND * RAW_BOUND >= 0,
        ;
    }

    if sum == 0 {
        proof {
            lemma_sq_prefix_zero(orig, n as int);
        }
        return ;
    }

    let root = isqrt_u128(sum);
    proof {
        assert(root >= 1) by (nonlinear_arith)
            requires
                sqrt_rel(sum as int, root as int),
                sum as int > 0,
        ;
    }

    let mut i: usize = 0;
    while i < n
        invariant
            i <= n,
            embedding.data@.len() == n,
            embedding.id == old(embedding).id,
            embedding.source_file == old(embedding).source_file,
            n == orig.len(),
            n <= MAX_DIM,
            raw_bounded(orig),
            1 <= root,
            sqrt_rel(sum as int, root as int),
            sum as int == norm_sq(orig),
            forall|j: int| i <= j < n ==> embedding.data@[j] == orig[j],
            forall|j: int| 0 <= j < i ==> #[trigger] embedding.data@[j]
                == scaled_component(orig[j], root as int) as i64,
            forall|j: int| 0 <= j < i ==> -SCALE <= #[trigger] embedding.data@[j] <= SCALE,
        decreases n - i,
    {
        let x = embedding.data[i];
        proof {
            assert(embedding.data@[i as int] == orig[i as int]);
            assert(-RAW_BOUND <= orig[i as int] <= RAW_BOUND);
        }
        let m: u64 = if x >= 0 { x as u64 } else { (-x) as u64 };
        proof {
            lemma_sq_term_le(orig, i as int, n as int);
            // m <= root, since m * m <= sum < (root + 1)^2.
            assert((m as int) * (m as int) == (x as int) * (x as int)) by (nonlinear_arith)
                requires
                    m as int == if x as int >= 0 { x as int } else { -(x as int) },
            ;
            assert(m as int <= root as int) by (nonlinear_arith)
                requires
                    (m as int) * (m as int) <= sum as int,
                    (sum as int) < (root as int + 1) * (root as int + 1),
                    0 <= m as int,
                    0 <= root as int,
            ;
        }
        let q: u128 = (m as u128) * (SCALE as u128) / (root as u128);
        proof {
            lemma_div_is_ordered(
                (m as int) * (SCALE as int),
                (root as int) * (SCALE as int),
                root as int,
            );
            assert((m as int) * (SCALE as int) <= (root as int) * (SCALE as int))
                by (nonlinear_arith)
                requires
                    m as int <= root as int,
                    SCALE as int >= 0,
            ;
            lemma_div_multiples_vanish(SCALE as int, root as int);
            assert((root as int) * (SCALE as int) == (SCALE as int) * (root as int))
                by (nonlinear_arith);
            assert(q as int <= SCALE as int);
        }
        let scaled: i64 = if x >= 0 { q as i64 } else { -(q as i64) };
        embedding.data.set(i, scaled);
        i = i + 1;
    }

    proof {
        assert(final(embedding).data@ =~= normalized_seq(orig, root as int));
        assert(sqrt_rel(norm_sq(orig), root as int));
    }
}

/// An owned copy of a vector of fixed-point components.
pub fn copy_data(v: &Vec<i64>) -> (r: Vec<i64>)
    ensures
        r@ == v@,
{
    let mut out: Vec<i64> = Vec::new();
    let mut i: usize = 0;
    while i < v.len()
        invariant
            i <= v.len(),
            out@ == v@.subrange(0, i as int),
        decreases v.len() - i,
    {
        out.push(v[i]);
        i = i + 1;
    }
    proof {
        assert(out@ =~= v@);
    }
    out
}

/// An owned copy of a list of tags.
pub fn copy_meta(v: &Vec<String>) -> (r: Vec<String>)
    ensures
        strings_view(r@) == strings_view(v@),
        r@.len() == v@.len(),
{
    let mut out: Vec<String> = Vec::new();
    let mut i: usize = 0;
    while i < v.len()
        invariant
            i <= v.len(),
            out@.len() == i,
            forall|j: int| 0 <= j < i ==> #[trigger] out@[j]@ == v@[j]@,
        decreases v.len() - i,
    {
        out.push(v[i].clone());
        i = i + 1;
    }
    proof {
        assert(strings_view(out@) =~= strings_view(v@));
    }
    out
}

impl EmbeddingSource {
    /// An owned copy with the same view.
    pub fn duplicate(&self) -> (r: EmbeddingSource)
        ensures
            r@ == self@,
    {
        EmbeddingSource {
            filepath: self.filepath.clone(),
            meta: copy_meta(&self.meta),
            subset: match self.subset {
                Some(p) => Some(p),
                None => None,
            },
        }
    }
}

impl Embedding {
    /// An owned copy with the same view.
    pub fn duplicate(&self) -> (r: Embedding)
        ensures
            r@ == self@,
    {
        Embedding {
            id: self.id,
            data: copy_data(&self.data),
            source_file: self.source_file.duplicate(),
        }
    }
}

} // verus!
