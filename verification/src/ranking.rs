//! Relevance ranking.
//!
//! A search result's relevance score is
//! `term_freq * log10(corpus_size / (doc_freq + 1)) / sqrt(token_count)`.
//! The score itself is a real number that callers may render in floating
//! point; the engine never needs its value, only the order it induces, and
//! that order is computed here exactly, over the integers the formula
//! consumes:
//!
//! * all results of one search share `corpus_size` and `doc_freq`, so they
//!   share the IDF factor `log10(corpus_size / (doc_freq + 1))`, whose sign
//!   is the sign of `corpus_size - (doc_freq + 1)`;
//! * for positive IDF, `a` scores at least as high as `b` iff
//!   `a.term_freq / sqrt(a.token_count) >= b.term_freq / sqrt(b.token_count)`,
//!   which (squaring, with positive token counts) is
//!   `a.term_freq^2 * b.token_count >= b.term_freq^2 * a.token_count`;
//! * for zero IDF all scores are zero, and for negative IDF the comparison
//!   flips.
//!
//! Ties are broken deterministically by ascending document id.

use vstd::prelude::*;

verus! {

/// One search hit: the matching document's id together with the exact
/// quantities the relevance score is computed from. The score of the hit is
/// `term_freq * log10(corpus_size / (doc_freq + 1)) / sqrt(token_count)`.
#[derive(Clone, Copy)]
pub struct SearchResult {
    /// Id of the matching document.
    pub doc_id: usize,
    /// Occurrence count of the query term in this document.
    pub term_freq: usize,
    /// Total token count of this document, used for length normalization.
    pub token_count: usize,
    /// Number of documents the query term occurs in.
    pub doc_freq: usize,
    /// Number of currently registered documents.
    pub corpus_size: usize,
}

/// The cross product `a.term_freq^2 * b.token_count`, used to compare the
/// normalized term frequencies of two hits without division or roots.
pub open spec fn cross(a: SearchResult, b: SearchResult) -> int {
    a.term_freq * a.term_freq * b.token_count
}

/// Both hits come from the same search: they share the corpus size and the
/// query term's document frequency, and so the IDF factor of the score.
pub open spec fn same_query(a: SearchResult, b: SearchResult) -> bool {
    a.corpus_size == b.corpus_size && a.doc_freq == b.doc_freq
}

/// The scores of `a` and `b` are exactly equal: either the shared IDF is
/// zero (corpus size equals document frequency plus one), or the normalized
/// term frequencies coincide.
pub open spec fn score_eq(a: SearchResult, b: SearchResult) -> bool {
    if a.corpus_size == a.doc_freq + 1 {
        true
    } else {
        cross(a, b) == cross(b, a)
    }
}

/// The score of `a` is strictly greater than the score of `b`.
pub open spec fn score_gt(a: SearchResult, b: SearchResult) -> bool {
    if a.corpus_size == a.doc_freq + 1 {
        false
    } else if a.corpus_size > a.doc_freq + 1 {
        cross(a, b) > cross(b, a)
    } else {
        cross(a, b) < cross(b, a)
    }
}

/// `a` is ranked strictly before `b`: its score is higher, or the scores
/// are equal and its document id is smaller (the deterministic tie-break).
#[verifier::opaque]
pub open spec fn ranked_before(a: SearchResult, b: SearchResult) -> bool {
    score_gt(a, b) || (score_eq(a, b) && a.doc_id < b.doc_id)
}

/// For hits of one search with distinct document ids, the ranking order is
/// total: one of the two comes strictly first.
pub proof fn lemma_ranked_total(a: SearchResult, b: SearchResult)
    requires
        same_query(a, b),
        a.doc_id != b.doc_id,
    ensures
        ranked_before(a, b) || ranked_before(b, a),
{
    reveal(ranked_before);
}

/// The ranking order is transitive on hits of one search with positive
/// token counts.
pub proof fn lemma_ranked_trans(a: SearchResult, b: SearchResult, c: SearchResult)
    requires
        same_query(a, b),
        same_query(b, c),
        a.token_count >= 1,
        b.token_count >= 1,
        c.token_count >= 1,
        ranked_before(a, b),
        ranked_before(b, c),
    ensures
        ranked_before(a, c),
{
    reveal(ranked_before);
    if a.corpus_size != a.doc_freq + 1 {
        lemma_cross_trans(
            a.term_freq as int,
            a.token_count as int,
            b.term_freq as int,
            b.token_count as int,
            c.term_freq as int,
            c.token_count as int,
        );
        lemma_cross_trans(
            c.term_freq as int,
            c.token_count as int,
            b.term_freq as int,
            b.token_count as int,
            a.term_freq as int,
            a.token_count as int,
        );
    }
}

/// Transitivity of the squared cross-product comparison: with positive
/// denominators, `fa^2/ta >= fb^2/tb >= fc^2/tc` chains, strictly where
/// either step is strict.
proof fn lemma_cross_trans(fa: int, ta: int, fb: int, tb: int, fc: int, tc: int)
    requires
        ta >= 1,
        tb >= 1,
        tc >= 1,
    ensures
        fa * fa * tb > fb * fb * ta && fb * fb * tc > fc * fc * tb ==> fa * fa * tc > fc * fc * ta,
        fa * fa * tb > fb * fb * ta && fb * fb * tc == fc * fc * tb ==> fa * fa * tc > fc * fc
            * ta,
        fa * fa * tb == fb * fb * ta && fb * fb * tc > fc * fc * tb ==> fa * fa * tc > fc * fc
            * ta,
        fa * fa * tb == fb * fb * ta && fb * fb * tc == fc * fc * tb ==> fa * fa * tc == fc * fc
            * ta,
{
    assert(fa * fa * tb >= fb * fb * ta && fb * fb * tc >= fc * fc * tb ==> fa * fa * tc >= fc * fc
        * ta && ((fa * fa * tb > fb * fb * ta || fb * fb * tc > fc * fc * tb) ==> fa * fa * tc > fc
        * fc * ta)) by (nonlinear_arith)
        requires
            ta >= 1,
            tb >= 1,
            tc >= 1,
    ;
    assert(fa * fa * tb <= fb * fb * ta && fb * fb * tc <= fc * fc * tb ==> fa * fa * tc <= fc * fc
        * ta) by (nonlinear_arith)
        requires
            ta >= 1,
            tb >= 1,
            tc >= 1,
    ;
}

/// Splits the product `x * t` of a 128-bit and a 64-bit value into
/// `hi * 2^64 + lo` with `lo < 2^64`.
fn wide_mul(x: u128, t: u128) -> (r: (u128, u128))
    requires
        t < 0x1_0000_0000_0000_0000u128,
    ensures
        r.0 * 0x1_0000_0000_0000_0000 + r.1 == x * t,
        r.1 < 0x1_0000_0000_0000_0000,
{
    let base: u128 = 0x1_0000_0000_0000_0000u128;
    let h: u128 = x / base;
    let l: u128 = x % base;
    assert(h < base && l < base) by (nonlinear_arith)
        requires
            h == x / base,
            l == x % base,
            base == 0x1_0000_0000_0000_0000u128,
            x <= u128::MAX,
    ;
    assert(h * base + l == x) by (nonlinear_arith)
        requires
            h == x / base,
            l == x % base,
            base > 0,
    ;
    assert(h * t <= (base - 1) * (base - 1) && l * t <= (base - 1) * (base - 1) && (base - 1) * (
    base - 1) < u128::MAX) by (nonlinear_arith)
        requires
            h < base,
            l < base,
            t < base,
            base == 0x1_0000_0000_0000_0000u128,
    ;
    let p: u128 = h * t;
    let q: u128 = l * t;
    assert(q / base < base) by (nonlinear_arith)
        requires
            q <= (base - 1) * (base - 1),
            base == 0x1_0000_0000_0000_0000u128,
    ;
    let hi: u128 = p + q / base;
    let lo: u128 = q % base;
    assert(hi * base + lo == x * t && lo < base) by (nonlinear_arith)
        requires
            h * base + l == x,
            p == h * t,
            q == l * t,
            hi == p + q / base,
            lo == q % base,
            h < base,
            l < base,
            t < base,
            base == 0x1_0000_0000_0000_0000u128,
    ;
    (hi, lo)
}

/// Compares `a.term_freq^2 * b.token_count` with `b.term_freq^2 *
/// a.token_count` exactly, in 192-bit arithmetic.
fn cross_cmp(a: &SearchResult, b: &SearchResult) -> (r: (bool, bool))
    ensures
        r.0 == (cross(*a, *b) > cross(*b, *a)),
        r.1 == (cross(*a, *b) == cross(*b, *a)),
{
    let fa: u128 = a.term_freq as u128;
    let fb: u128 = b.term_freq as u128;
    proof {
        assert(fa < 0x1_0000_0000_0000_0000 && fb < 0x1_0000_0000_0000_0000);
        assert(fa * fa < u128::MAX && fb * fb < u128::MAX) by (nonlinear_arith)
            requires
                fa < 0x1_0000_0000_0000_0000u128,
                fb < 0x1_0000_0000_0000_0000u128,
        ;
    }
    let xa: u128 = fa * fa;
    let xb: u128 = fb * fb;
    let (pa, qa) = wide_mul(xa, b.token_count as u128);
    let (pb, qb) = wide_mul(xb, a.token_count as u128);
    proof {
        lemma_wide_cmp(pa as int, qa as int, pb as int, qb as int, 0x1_0000_0000_0000_0000int);
        assert(xa * (b.token_count as u128) == cross(*a, *b)) by (nonlinear_arith)
            requires
                xa == (a.term_freq as u128) * (a.term_freq as u128),
                a.term_freq as u128 == a.term_freq as int,
                b.token_count as int >= 0,
        ;
        assert(xb * (a.token_count as u128) == cross(*b, *a)) by (nonlinear_arith)
            requires
                xb == (b.term_freq as u128) * (b.term_freq as u128),
                b.term_freq as u128 == b.term_freq as int,
                a.token_count as int >= 0,
        ;
    }
    let gt: bool = pa > pb || (pa == pb && qa > qb);
    let eq: bool = pa == pb && qa == qb;
    (gt, eq)
}

/// Digit-wise comparison of `p1 * base + q1` and `p2 * base + q2` when the
/// low digits are below `base`.
proof fn lemma_wide_cmp(p1: int, q1: int, p2: int, q2: int, base: int)
    requires
        base >= 1,
        0 <= q1 < base,
        0 <= q2 < base,
        p1 >= 0,
        p2 >= 0,
    ensures
        (p1 * base + q1 > p2 * base + q2) == (p1 > p2 || (p1 == p2 && q1 > q2)),
        (p1 * base + q1 == p2 * base + q2) == (p1 == p2 && q1 == q2),
{
    if p1 > p2 {
        assert(p1 * base >= p2 * base + base) by (nonlinear_arith)
            requires
                p1 >= p2 + 1,
                base >= 1,
        ;
    } else if p2 > p1 {
        assert(p2 * base >= p1 * base + base) by (nonlinear_arith)
            requires
                p2 >= p1 + 1,
                base >= 1,
        ;
    }
}

/// Decides `ranked_before(*a, *b)` exactly.
fn ranked_before_exec(a: &SearchResult, b: &SearchResult) -> (r: bool)
    requires
        same_query(*a, *b),
    ensures
        r == ranked_before(*a, *b),
{
    proof {
        reveal(ranked_before);
    }
    let (gt, eq) = cross_cmp(a, b);
    if a.corpus_size > a.doc_freq && a.corpus_size - a.doc_freq == 1 {
        // Zero IDF: every score is zero; order by document id.
        a.doc_id < b.doc_id
    } else if a.corpus_size > a.doc_freq {
        // Positive IDF: higher normalized term frequency first.
        gt || (eq && a.doc_id < b.doc_id)
    } else {
        // Negative IDF: the comparison flips.
        (!gt && !eq) || (eq && a.doc_id < b.doc_id)
    }
}

/// The sequence is in ranked order: each element is ranked strictly before
/// every later one.
pub open spec fn sorted_by_rank(s: Seq<SearchResult>) -> bool {
    forall|m1: int, m2: int| 0 <= m1 < m2 < s.len() ==> ranked_before(s[m1], s[m2])
}

/// The hits of one search: pairwise from the same query, positive token
/// counts, distinct document ids.
pub open spec fn coherent_hits(hits: Seq<SearchResult>) -> bool {
    &&& forall|i: int, j: int|
        0 <= i < hits.len() && 0 <= j < hits.len() ==> same_query(
            #[trigger] hits[i],
            #[trigger] hits[j],
        )
    &&& forall|i: int| 0 <= i < hits.len() ==> #[trigger] hits[i].token_count >= 1
    &&& forall|i: int, j: int|
        0 <= i < j < hits.len() ==> (#[trigger] hits[i]).doc_id != (#[trigger] hits[j]).doc_id
}

/// `x` occurs among the elements of `s`.
pub open spec fn among(x: SearchResult, s: Seq<SearchResult>) -> bool {
    exists|j: int| 0 <= j < s.len() && s[j] == x
}

/// Some result in `s` carries the document id `id`.
pub open spec fn lists_doc(s: Seq<SearchResult>, id: int) -> bool {
    exists|m: int| 0 <= m < s.len() && s[m].doc_id == id
}

/// Sortedness is preserved when `x` is inserted at the first position
/// whose element does not rank before it.
#[verifier::spinoff_prover]
#[verifier::rlimit(100)]
proof fn lemma_sorted_after_insert(
    before: Seq<SearchResult>,
    x: SearchResult,
    mi: int,
    hits: Seq<SearchResult>,
    pmap: Seq<int>,
    k: int,
)
    requires
        coherent_hits(hits),
        0 <= k < hits.len(),
        x == hits[k],
        before.len() == pmap.len(),
        forall|m: int|
            0 <= m < before.len() ==> 0 <= #[trigger] pmap[m] < k && before[m] == hits[pmap[m]],
        sorted_by_rank(before),
        0 <= mi <= before.len(),
        forall|mm: int| 0 <= mm < mi ==> ranked_before(#[trigger] before[mm], x),
        mi < before.len() ==> ranked_before(x, before[mi]),
    ensures
        sorted_by_rank(before.insert(mi, x)),
{
    let after = before.insert(mi, x);
    before.insert_ensures(mi, x);
    assert forall|m1: int, m2: int| 0 <= m1 < m2 < after.len() implies ranked_before(
        after[m1],
        after[m2],
    ) by {
        if m2 < mi {
            assert(after[m1] == before[m1] && after[m2] == before[m2]);
        } else if m1 > mi {
            assert(after[m1] == before[m1 - 1] && after[m2] == before[m2 - 1]);
        } else if m1 < mi && m2 > mi {
            assert(after[m1] == before[m1] && after[m2] == before[m2 - 1]);
        } else if m1 == mi {
            assert(after[m1] == x && after[m2] == before[m2 - 1]);
            if m2 - 1 > mi {
                // x ranks before the displaced element, which ranks before
                // the rest; chain through transitivity.
                let ja = pmap[mi];
                let jb = pmap[m2 - 1];
                assert(before[mi] == hits[ja] && before[m2 - 1] == hits[jb]);
                assert(same_query(hits[k], hits[ja]) && same_query(hits[ja], hits[jb]));
                assert(hits[k].token_count >= 1 && hits[ja].token_count >= 1 && hits[jb].token_count
                    >= 1);
                lemma_ranked_trans(x, before[mi], before[m2 - 1]);
            }
        } else {
            assert(m2 == mi);
            assert(after[m1] == before[m1] && after[m2] == x);
        }
    }
}

/// Sorts the hits of one search into ranked order: descending by score,
/// ties broken by ascending document id. The result holds exactly the given
/// hits.
#[verifier::rlimit(50)]
pub(crate) fn rank_hits(hits: Vec<SearchResult>) -> (out: Vec<SearchResult>)
    requires
        coherent_hits(hits@),
    ensures
        out@.len() == hits@.len(),
        sorted_by_rank(out@),
        forall|m: int| 0 <= m < out@.len() ==> among(#[trigger] out@[m], hits@),
        forall|j: int| 0 <= j < hits@.len() ==> among(#[trigger] hits@[j], out@),
{
    let mut out: Vec<SearchResult> = Vec::new();
    // `pmap[m]` is the index in `hits` of the element at position `m` of
    // `out`; `hpos[j]` is the position in `out` of the `j`-th hit.
    let ghost mut pmap: Seq<int> = Seq::empty();
    let ghost mut hpos: Seq<int> = Seq::empty();
    let n = hits.len();
    for k in 0..n
        invariant
            n == hits@.len(),
            coherent_hits(hits@),
            out@.len() == k,
            pmap.len() == k,
            hpos.len() == k,
            forall|m: int|
                0 <= m < k ==> 0 <= #[trigger] pmap[m] < k && out@[m] == hits@[pmap[m]],
            forall|j: int|
                0 <= j < k ==> 0 <= #[trigger] hpos[j] < k && out@[hpos[j]] == hits@[j],
            sorted_by_rank(out@),
    {
        let x = hits[k];
        proof {
            assert forall|mm: int| 0 <= mm < out@.len() implies same_query(
                #[trigger] out@[mm],
                x,
            ) by {
                let ja = pmap[mm];
                assert(out@[mm] == hits@[ja]);
                assert(same_query(hits@[ja], hits@[k as int]));
            }
        }
        let mut m: usize = 0;
        while m < out.len() && ranked_before_exec(&out[m], &x)
            invariant
                n == hits@.len(),
                coherent_hits(hits@),
                k < n,
                x == hits@[k as int],
                out@.len() == k,
                pmap.len() == k,
                forall|mm: int|
                    0 <= mm < k ==> 0 <= #[trigger] pmap[mm] < k && out@[mm] == hits@[pmap[mm]],
                m <= out@.len(),
                forall|mm: int| 0 <= mm < out@.len() ==> same_query(#[trigger] out@[mm], x),
                forall|mm: int| 0 <= mm < m ==> ranked_before(#[trigger] out@[mm], x),
            decreases out@.len() - m,
        {
            m = m + 1;
        }
        proof {
            if m < out.len() {
                let ja = pmap[m as int];
                assert(out@[m as int] == hits@[ja]);
                assert(same_query(hits@[ja], hits@[k as int]));
                assert(hits@[ja].doc_id != hits@[k as int].doc_id);
                lemma_ranked_total(out@[m as int], x);
                assert(ranked_before(x, out@[m as int]));
            }
        }
        let ghost out_before = out@;
        let ghost mi = m as int;
        out.insert(m, x);
        proof {
            lemma_sorted_after_insert(out_before, x, mi, hits@, pmap, k as int);
            out_before.insert_ensures(mi, x);
            assert(out@ == out_before.insert(mi, x));
            pmap = pmap.insert(mi, k as int);
            hpos = Seq::new(
                (k + 1) as nat,
                |j: int|
                    if j == k {
                        mi
                    } else if hpos[j] < mi {
                        hpos[j]
                    } else {
                        hpos[j] + 1
                    },
            );
            assert forall|m2: int| 0 <= m2 < k + 1 implies 0 <= #[trigger] pmap[m2] < k + 1
                && out@[m2] == hits@[pmap[m2]] by {
                if m2 < mi {
                    assert(pmap[m2] == pmap.subrange(0, mi)[m2]);
                } else if m2 > mi {
                }
            }
        }
    }
    proof {
        assert forall|m: int| 0 <= m < out@.len() implies among(#[trigger] out@[m], hits@) by {
            let j0 = pmap[m];
            assert(0 <= j0 < hits@.len() && hits@[j0] == out@[m]);
        }
        assert forall|j: int| 0 <= j < hits@.len() implies among(#[trigger] hits@[j], out@) by {
            let m0 = hpos[j];
            assert(0 <= m0 < out@.len() && out@[m0] == hits@[j]);
        }
    }
    out
}

} // verus!
