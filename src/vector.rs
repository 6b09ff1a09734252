//! Sparse term vectors and their cosine similarity, in exact integer arithmetic.
//!
//! A vector is a list of `(dimension, weight)` pairs with strictly increasing
//! dimensions. Weights are fixed-point term weights. The cosine similarity of
//! `a` and `b` is `dot(a, b) / sqrt(norm2(a) * norm2(b))`; it is never computed
//! as a fraction, only compared, so no precision is lost.
use vstd::prelude::*;

verus! {

/// The largest number of entries a vector may hold.
pub const MAX_ENTRIES: usize = 1048576;

/// A sparse vector: `(dimension, weight)` pairs.
#[derive(Clone, Debug)]
pub struct SparseVector {
    pub entries: Vec<(u32, u16)>,
}

pub open spec fn dims_increasing(e: Seq<(u32, u16)>) -> bool {
    forall|i: int, j: int| 0 <= i < j < e.len() ==> e[i].0 < e[j].0
}

pub open spec fn entries_wf(e: Seq<(u32, u16)>) -> bool {
    dims_increasing(e) && e.len() <= MAX_ENTRIES
}

impl SparseVector {
    pub open spec fn wf(&self) -> bool {
        entries_wf(self.entries@)
    }
}

/// The dot product of two vectors, by merging their sorted dimensions.
pub open spec fn dot(a: Seq<(u32, u16)>, b: Seq<(u32, u16)>) -> int
    decreases a.len() + b.len(),
{
    if a.len() == 0 || b.len() == 0 {
        0
    } else if a[0].0 == b[0].0 {
        a[0].1 as int * b[0].1 as int + dot(a.drop_first(), b.drop_first())
    } else if a[0].0 < b[0].0 {
        dot(a.drop_first(), b)
    } else {
        dot(a, b.drop_first())
    }
}

/// The squared length of a vector.
pub open spec fn norm2(a: Seq<(u32, u16)>) -> int
    decreases a.len(),
{
    if a.len() == 0 {
        0
    } else {
        a[0].1 as int * a[0].1 as int + norm2(a.drop_first())
    }
}

/// Cosine similarity exceeds `pct / 100`; a zero vector has similarity zero.
pub open spec fn sim_above(d: int, n: int, pct: int) -> bool {
    n > 0 && 10000 * d * d > pct * pct * n
}

/// `k` is at most the cosine similarity in percent, rounded half up.
pub open spec fn rounds_to_at_least(d: int, n: int, k: int) -> bool {
    k == 0 || (2 * k - 1) * (2 * k - 1) * n <= 40000 * d * d
}

/// The largest `k <= top` with `rounds_to_at_least(d, n, k)`.
pub open spec fn round_pct_below(d: int, n: int, top: nat) -> nat
    decreases top,
{
    if top == 0 || rounds_to_at_least(d, n, top as int) {
        top
    } else {
        round_pct_below(d, n, (top - 1) as nat)
    }
}

/// Cosine similarity of vectors with dot product `d` and norm product `n`, in
/// percent, rounded half up; zero for a zero vector.
pub open spec fn score_pct(d: int, n: int) -> nat {
    if n <= 0 {
        0
    } else {
        round_pct_below(d, n, 100)
    }
}

proof fn lemma_square_le(u: int, v: int)
    requires
        u >= 0,
        v >= 0,
        v * v <= u * u,
    ensures
        v <= u,
{
    if v > u {
        assert(v * v > u * u) by (nonlinear_arith)
            requires
                v > u,
                u >= 0,
        ;
    }
}

proof fn lemma_cs_step(x: int, y: int, a: int, b: int, d: int)
    requires
        x >= 0,
        y >= 0,
        a >= 0,
        b >= 0,
        d >= 0,
        d * d <= a * b,
    ensures
        (x * y + d) * (x * y + d) <= (x * x + a) * (y * y + b),
{
    let p = x * x * b;
    let q = a * y * y;
    let r = x * y * d;
    assert(p >= 0 && q >= 0 && r >= 0) by (nonlinear_arith)
        requires
            x >= 0,
            y >= 0,
            a >= 0,
            b >= 0,
            d >= 0,
            p == x * x * b,
            q == a * y * y,
            r == x * y * d,
    ;
    assert(p * q >= r * r) by (nonlinear_arith)
        requires
            d * d <= a * b,
            p == x * x * b,
            q == a * y * y,
            r == x * y * d,
            x * x * y * y >= 0,
    ;
    assert((p + q) * (p + q) >= (2 * r) * (2 * r)) by (nonlinear_arith)
        requires
            p * q >= r * r,
    ;
    lemma_square_le(p + q, 2 * r);
    assert((x * y + d) * (x * y + d) == x * x * y * y + 2 * (x * y * d) + d * d)
        by (nonlinear_arith);
    assert((x * x + a) * (y * y + b) == x * x * y * y + x * x * b + a * y * y + a * b)
        by (nonlinear_arith);
}

pub proof fn lemma_norm2_nonneg(a: Seq<(u32, u16)>)
    ensures
        norm2(a) >= 0,
    decreases a.len(),
{
    if a.len() > 0 {
        lemma_norm2_nonneg(a.drop_first());
    }
}

/// Cauchy-Schwarz for merged sparse vectors; the dot product is never negative.
pub proof fn lemma_cauchy_schwarz(a: Seq<(u32, u16)>, b: Seq<(u32, u16)>)
    ensures
        0 <= dot(a, b),
        dot(a, b) * dot(a, b) <= norm2(a) * norm2(b),
    decreases a.len() + b.len(),
{
    lemma_norm2_nonneg(a);
    lemma_norm2_nonneg(b);
    if a.len() == 0 || b.len() == 0 {
    } else if a[0].0 == b[0].0 {
        lemma_cauchy_schwarz(a.drop_first(), b.drop_first());
        lemma_norm2_nonneg(a.drop_first());
        lemma_norm2_nonneg(b.drop_first());
        lemma_cs_step(
            a[0].1 as int,
            b[0].1 as int,
            norm2(a.drop_first()),
            norm2(b.drop_first()),
            dot(a.drop_first(), b.drop_first()),
        );
        assert(a[0].1 as int * b[0].1 as int >= 0) by (nonlinear_arith);
    } else if a[0].0 < b[0].0 {
        lemma_cauchy_schwarz(a.drop_first(), b);
        lemma_norm2_nonneg(a.drop_first());
        assert(norm2(a.drop_first()) * norm2(b) <= norm2(a) * norm2(b)) by (nonlinear_arith)
            requires
                norm2(a.drop_first()) <= norm2(a),
                norm2(b) >= 0,
        ;
    } else {
        lemma_cauchy_schwarz(a, b.drop_first());
        lemma_norm2_nonneg(b.drop_first());
        assert(norm2(a) * norm2(b.drop_first()) <= norm2(a) * norm2(b)) by (nonlinear_arith)
            requires
                norm2(b.drop_first()) <= norm2(b),
                norm2(a) >= 0,
        ;
    }
}

pub proof fn lemma_dot_self(a: Seq<(u32, u16)>)
    ensures
        dot(a, a) == norm2(a),
    decreases a.len(),
{
    if a.len() > 0 {
        lemma_dot_self(a.drop_first());
    }
}

proof fn lemma_round_pct_bounds(d: int, n: int, top: nat)
    ensures
        round_pct_below(d, n, top) <= top,
        rounds_to_at_least(d, n, round_pct_below(d, n, top) as int),
        forall|k: int|
            round_pct_below(d, n, top) < k <= top ==> !rounds_to_at_least(d, n, k),
    decreases top,
{
    if top > 0 && !rounds_to_at_least(d, n, top as int) {
        lemma_round_pct_bounds(d, n, (top - 1) as nat);
    }
}

/// Cosine similarity lies in `[0, 1]`: the dot product is not negative and its
/// square is at most the product of the squared norms; the score in percent is
/// at most 100; a non-zero vector has similarity 1 (score 100) with itself.
pub proof fn lemma_similarity_bounds(a: Seq<(u32, u16)>, b: Seq<(u32, u16)>)
    requires
        norm2(a) > 0,
        norm2(b) > 0,
    ensures
        0 <= dot(a, b),
        dot(a, b) * dot(a, b) <= norm2(a) * norm2(b),
        score_pct(dot(a, b), norm2(a) * norm2(b)) <= 100,
        dot(a, a) * dot(a, a) == norm2(a) * norm2(a),
        score_pct(dot(a, a), norm2(a) * norm2(a)) == 100,
{
    lemma_cauchy_schwarz(a, b);
    lemma_round_pct_bounds(dot(a, b), norm2(a) * norm2(b), 100);
    lemma_dot_self(a);
    let n = norm2(a) * norm2(a);
    assert(199 * 199 * n <= 40000 * norm2(a) * norm2(a)) by (nonlinear_arith)
        requires
            n == norm2(a) * norm2(a),
            norm2(a) > 0,
    ;
    assert(n > 0) by (nonlinear_arith)
        requires
            n == norm2(a) * norm2(a),
            norm2(a) > 0,
    ;
}

proof fn lemma_weight_product(x: u16, y: u16)
    ensures
        0 <= x as int * y as int <= 4294967296,
{
    assert(0 <= x as int * y as int <= 65535 * 65535) by (nonlinear_arith)
        requires
            0 <= x <= 65535,
            0 <= y <= 65535,
    ;
}

pub proof fn lemma_dot_bound(a: Seq<(u32, u16)>, b: Seq<(u32, u16)>)
    ensures
        0 <= dot(a, b) <= 4294967296 * (a.len() + b.len()),
    decreases a.len() + b.len(),
{
    if a.len() == 0 || b.len() == 0 {
    } else if a[0].0 == b[0].0 {
        lemma_dot_bound(a.drop_first(), b.drop_first());
        lemma_weight_product(a[0].1, b[0].1);
    } else if a[0].0 < b[0].0 {
        lemma_dot_bound(a.drop_first(), b);
    } else {
        lemma_dot_bound(a, b.drop_first());
    }
}

pub proof fn lemma_norm2_bound(a: Seq<(u32, u16)>)
    ensures
        0 <= norm2(a) <= 4294967296 * a.len(),
    decreases a.len(),
{
    if a.len() > 0 {
        lemma_norm2_bound(a.drop_first());
        lemma_weight_product(a[0].1, a[0].1);
    }
}

/// The dot product of two well-formed vectors.
pub fn dot_product(a: &SparseVector, b: &SparseVector) -> (r: u64)
    requires
        a.wf(),
        b.wf(),
    ensures
        r as int == dot(a.entries@, b.entries@),
        r <= max_dot(),
{
    let ea = &a.entries;
    let eb = &b.entries;
    let mut i: usize = 0;
    let mut j: usize = 0;
    let mut acc: u64 = 0;
    proof {
        assert(ea@.subrange(0, ea@.len() as int) =~= ea@);
        assert(eb@.subrange(0, eb@.len() as int) =~= eb@);
    }
    while i < ea.len() && j < eb.len()
        invariant
            i <= ea@.len() <= MAX_ENTRIES,
            j <= eb@.len() <= MAX_ENTRIES,
            acc as int + dot(ea@.subrange(i as int, ea@.len() as int), eb@.subrange(j as int, eb@.len() as int)) == dot(ea@, eb@),
            acc as int <= 4294967296 * (i + j),
        decreases ea@.len() + eb@.len() - i - j,
    {
        let ghost sa = ea@.subrange(i as int, ea@.len() as int);
        let ghost sb = eb@.subrange(j as int, eb@.len() as int);
        assert(sa.drop_first() =~= ea@.subrange(i + 1, ea@.len() as int));
        assert(sb.drop_first() =~= eb@.subrange(j + 1, eb@.len() as int));
        let (da, wa) = ea[i];
        let (db, wb) = eb[j];
        if da == db {
            proof {
                lemma_weight_product(wa, wb);
            }
            acc = acc + (wa as u64) * (wb as u64);
            i += 1;
            j += 1;
        } else if da < db {
            i += 1;
        } else {
            j += 1;
        }
    }
    proof {
        let sa = ea@.subrange(i as int, ea@.len() as int);
        let sb = eb@.subrange(j as int, eb@.len() as int);
        assert(sa.len() == 0 || sb.len() == 0);
        lemma_dot_bound(ea@, eb@);
    }
    acc
}

/// The squared length of a well-formed vector.
pub fn squared_norm(a: &SparseVector) -> (r: u64)
    requires
        a.wf(),
    ensures
        r as int == norm2(a.entries@),
        r <= 4503599627370496,
{
    let e = &a.entries;
    let mut i: usize = e.len();
    let mut acc: u64 = 0;
    assert(e@.subrange(e@.len() as int, e@.len() as int) =~= Seq::<(u32, u16)>::empty());
    while i > 0
        invariant
            i <= e@.len() <= MAX_ENTRIES,
            acc as int == norm2(e@.subrange(i as int, e@.len() as int)),
            acc as int <= 4294967296 * (e@.len() - i),
        decreases i,
    {
        let ghost s = e@.subrange(i - 1, e@.len() as int);
        assert(s.drop_first() =~= e@.subrange(i as int, e@.len() as int));
        let w = e[i - 1].1;
        proof {
            lemma_weight_product(w, w);
        }
        acc = acc + (w as u64) * (w as u64);
        i -= 1;
    }
    assert(e@.subrange(0, e@.len() as int) =~= e@);
    acc
}

pub proof fn lemma_mul_le(a: int, b: int, x: int, y: int)
    requires
        0 <= a <= x,
        0 <= b <= y,
    ensures
        0 <= a * b <= x * y,
{
    assert(0 <= a * b <= x * y) by (nonlinear_arith)
        requires
            0 <= a <= x,
            0 <= b <= y,
    ;
}

/// Largest dot product of well-formed vectors.
pub open spec fn max_dot() -> int {
    9007199254740992
}

/// Largest product of two squared norms of well-formed vectors.
pub open spec fn max_norm_product() -> int {
    20282409603651670423947251286016
}

/// Whether the cosine similarity `d / sqrt(n)` exceeds `pct` percent.
pub fn similarity_above(d: u64, n: u128, pct: u32) -> (r: bool)
    requires
        d <= max_dot(),
        n <= max_norm_product(),
        pct <= 100,
    ensures
        r == sim_above(d as int, n as int, pct as int),
{
    if n == 0 {
        return false;
    }
    let dd = d as u128;
    let l1 = 10000 * dd;
    proof {
        lemma_mul_le(l1 as int, dd as int, 90071992547409920000, 9007199254740992);
        lemma_mul_le(pct as int, pct as int, 100, 100);
    }
    let lhs = l1 * dd;
    let pct_sq = (pct as u128) * (pct as u128);
    proof {
        lemma_mul_le(pct_sq as int, n as int, 10000, 20282409603651670423947251286016);
    }
    let rhs = pct_sq * n;
    lhs > rhs
}

/// The cosine similarity `d / sqrt(n)` in percent, rounded half up (at most 100).
pub fn score_percent(d: u64, n: u128) -> (r: u32)
    requires
        d <= max_dot(),
        n <= max_norm_product(),
    ensures
        r as nat == score_pct(d as int, n as int),
        r <= 100,
{
    if n == 0 {
        return 0;
    }
    let dd = d as u128;
    let l1 = 40000 * dd;
    proof {
        lemma_mul_le(l1 as int, dd as int, 360287970189639680000, 9007199254740992);
    }
    let rhs = l1 * dd;
    let mut k: u32 = 100;
    while k > 0
        invariant
            k <= 100,
            0 < n <= max_norm_product(),
            rhs == 40000 * d * d,
            round_pct_below(d as int, n as int, k as nat) == round_pct_below(
                d as int,
                n as int,
                100,
            ),
        decreases k,
    {
        let m = (2 * k - 1) as u128;
        proof {
            lemma_mul_le(m as int, m as int, 199, 199);
        }
        let m2 = m * m;
        proof {
            lemma_mul_le(m2 as int, n as int, 39601, 20282409603651670423947251286016);
        }
        if m2 * n <= rhs {
            return k;
        }
        k -= 1;
    }
    0
}

} // verus!
