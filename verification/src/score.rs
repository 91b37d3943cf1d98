//! BM25 scoring in exact fixed-point arithmetic.
//!
//! A document's score against a query is a sum of per-term
//! contributions.  With the constant inverse-document-frequency weight
//! of 1, the saturation constant `k1 = 3/2` and the length-normalization
//! constant `b = 3/4`, a term occurring `tf` times in a document of
//! `dl` tokens, in a corpus of `n` documents holding `s` tokens in all,
//! contributes
//!
//! ```text
//!     tf * (k1 + 1)                          20 * s * tf
//!  ---------------------------------  =  ----------------------------
//!  tf + k1 * (1 - b + b * dl / (s/n))     8 * s * tf + 3 * s + 9 * dl * n
//! ```
//!
//! a ratio of integers.  Scores are represented as this ratio scaled by
//! `SCORE_SCALE` and rounded down, so that score comparison is exact
//! integer comparison.  Corpus statistics are clipped at `STAT_CLIP`
//! before entering the formula; the clip is the identity for any corpus
//! of up to a billion tokens and merely keeps every intermediate
//! product inside `u128`.

use vstd::prelude::*;

verus! {

/// Fixed-point scale: one point of score is `1 / SCORE_SCALE`.
pub const SCORE_SCALE: u64 = 4294967296;

/// Statistics entering the score formula are clipped to this bound.
pub const STAT_CLIP: u64 = 1073741824;

/// A corpus statistic clipped to `STAT_CLIP`.
pub open spec fn clip(x: nat) -> nat {
    if x > STAT_CLIP as nat {
        STAT_CLIP as nat
    } else {
        x
    }
}

/// The scaled BM25 contribution of one query term to one document:
/// term frequency `tf` in the document, document length `dl`, total
/// token count `s` over the corpus, corpus size `n` documents.
pub open spec fn term_score(tf: nat, dl: nat, s: nat, n: nat) -> nat {
    if tf == 0 || s == 0 {
        0
    } else {
        let tfc = clip(tf);
        let dlc = clip(dl);
        let sc = clip(s);
        let nc = clip(n);
        (20 * sc * tfc * (SCORE_SCALE as nat)) / (8 * sc * tfc + 3 * sc + 9 * dlc * nc)
    }
}

/// Clipping the total token count and the corpus size before the
/// formula changes nothing: the formula clips them itself.
pub proof fn lemma_term_score_clip(tf: nat, dl: nat, s: nat, n: nat)
    ensures
        term_score(tf, dl, clip(s), clip(n)) == term_score(tf, dl, s, n),
{
}

/// Every term contribution is at most `3 * SCORE_SCALE`
/// (the exact ratio is below `k1 + 1 = 5/2`).
pub proof fn lemma_term_score_bound(tf: nat, dl: nat, s: nat, n: nat)
    ensures
        term_score(tf, dl, s, n) <= 3 * (SCORE_SCALE as nat),
{
    if tf == 0 || s == 0 {
    } else {
        let tfc = clip(tf);
        let dlc = clip(dl);
        let sc = clip(s);
        let nc = clip(n);
        let num = 20 * sc * tfc * (SCORE_SCALE as nat);
        let den = 8 * sc * tfc + 3 * sc + 9 * dlc * nc;
        assert(sc >= 1 && tfc >= 1);
        assert(num <= 3 * (SCORE_SCALE as nat) * den) by (nonlinear_arith)
            requires
                sc >= 1 && tfc >= 1,
                num == 20 * sc * tfc * (SCORE_SCALE as nat),
                den == 8 * sc * tfc + 3 * sc + 9 * dlc * nc,
                dlc >= 0 && nc >= 0,
        ;
        assert(den >= 1);
        vstd::arithmetic::div_mod::lemma_div_is_ordered(
            num as int,
            3 * (SCORE_SCALE as int) * den,
            den as int,
        );
        vstd::arithmetic::div_mod::lemma_div_by_multiple(3 * (SCORE_SCALE as int), den as int);
    }
}

/// With all four statistics clipped, every product in the score
/// formula stays far below `u128::MAX`.
proof fn lemma_clipped_products_bounded(sc: nat, tfc: nat, dlc: nat, nc: nat)
    requires
        sc <= STAT_CLIP as nat,
        tfc <= STAT_CLIP as nat,
        dlc <= STAT_CLIP as nat,
        nc <= STAT_CLIP as nat,
    ensures
        20 * sc <= 20 * (STAT_CLIP as nat),
        20 * sc * tfc <= 20 * (STAT_CLIP as nat) * (STAT_CLIP as nat),
        20 * sc * tfc * (SCORE_SCALE as nat) <= 20 * (STAT_CLIP as nat) * (STAT_CLIP as nat) * (
        SCORE_SCALE as nat),
        8 * sc * tfc <= 8 * (STAT_CLIP as nat) * (STAT_CLIP as nat),
        9 * dlc * nc <= 9 * (STAT_CLIP as nat) * (STAT_CLIP as nat),
{
    assert(20 * sc * tfc <= 20 * (STAT_CLIP as nat) * (STAT_CLIP as nat)
        && 20 * sc * tfc * (SCORE_SCALE as nat) <= 20 * (STAT_CLIP as nat) * (STAT_CLIP as nat) * (
    SCORE_SCALE as nat) && 8 * sc * tfc <= 8 * (STAT_CLIP as nat) * (STAT_CLIP as nat) && 9 * dlc
        * nc <= 9 * (STAT_CLIP as nat) * (STAT_CLIP as nat)) by (nonlinear_arith)
        requires
            sc <= STAT_CLIP as nat,
            tfc <= STAT_CLIP as nat,
            dlc <= STAT_CLIP as nat,
            nc <= STAT_CLIP as nat,
    ;
}

/// Computes `term_score`.  The total token count and the corpus size
/// arrive already clipped; term frequency and document length are
/// clipped here.
pub(crate) fn term_score_exec(tf: usize, dl: usize, sc: u64, nc: u64) -> (r: u64)
    requires
        sc == clip(sc as nat),
        nc == clip(nc as nat),
    ensures
        r as nat == term_score(tf as nat, dl as nat, sc as nat, nc as nat),
        r <= 3 * SCORE_SCALE,
{
    proof {
        lemma_term_score_bound(tf as nat, dl as nat, sc as nat, nc as nat);
    }
    if tf == 0 || sc == 0 {
        return 0;
    }
    let tfc: u128 = clip_stat(tf) as u128;
    let dlc: u128 = clip_stat(dl) as u128;
    let scw: u128 = sc as u128;
    let ncw: u128 = nc as u128;
    assert(tfc <= STAT_CLIP && dlc <= STAT_CLIP && scw <= STAT_CLIP && ncw <= STAT_CLIP);
    assert(tfc >= 1 && scw >= 1);
    proof {
        lemma_clipped_products_bounded(scw as nat, tfc as nat, dlc as nat, ncw as nat);
    }
    let num: u128 = 20 * scw * tfc * (SCORE_SCALE as u128);
    let den: u128 = 8 * scw * tfc + 3 * scw + 9 * dlc * ncw;
    let q: u128 = num / den;
    assert(q <= 3 * (SCORE_SCALE as u128)) by {
        assert(num <= 3 * (SCORE_SCALE as int) * den) by (nonlinear_arith)
            requires
                scw >= 1 && tfc >= 1,
                num == 20 * scw * tfc * (SCORE_SCALE as u128),
                den == 8 * scw * tfc + 3 * scw + 9 * dlc * ncw,
                dlc >= 0 && ncw >= 0,
        ;
        vstd::arithmetic::div_mod::lemma_div_is_ordered(
            num as int,
            3 * (SCORE_SCALE as int) * den,
            den as int,
        );
        vstd::arithmetic::div_mod::lemma_div_by_multiple(3 * (SCORE_SCALE as int), den as int);
    }
    q as u64
}

/// Clips a corpus statistic to `STAT_CLIP`.
pub(crate) fn clip_stat(x: usize) -> (r: u64)
    ensures
        r as nat == clip(x as nat),
        r <= STAT_CLIP,
{
    if x as u64 > STAT_CLIP {
        STAT_CLIP
    } else {
        x as u64
    }
}

/// How often term `t` occurs among the tokens `d` of one document.
pub open spec fn count_term(d: Seq<Seq<char>>, t: Seq<char>) -> nat
    decreases d.len(),
{
    if d.len() == 0 {
        0
    } else {
        count_term(d.drop_last(), t) + if d.last() == t {
            1nat
        } else {
            0nat
        }
    }
}

/// Total number of tokens over a tokenized corpus.
pub open spec fn total_tokens(toks: Seq<Seq<Seq<char>>>) -> nat
    decreases toks.len(),
{
    if toks.len() == 0 {
        0
    } else {
        total_tokens(toks.drop_last()) + toks.last().len()
    }
}

/// The token count is additive over concatenation.
pub proof fn lemma_total_tokens_add(a: Seq<Seq<Seq<char>>>, b: Seq<Seq<Seq<char>>>)
    ensures
        total_tokens(a + b) == total_tokens(a) + total_tokens(b),
    decreases b.len(),
{
    if b.len() == 0 {
        assert(a + b =~= a);
    } else {
        lemma_total_tokens_add(a, b.drop_last());
        assert((a + b).drop_last() =~= a + b.drop_last());
        assert((a + b).last() == b.last());
    }
}

/// Removing one document removes exactly its tokens from the total.
pub proof fn lemma_total_tokens_remove(b: Seq<Seq<Seq<char>>>, i: int)
    requires
        0 <= i < b.len(),
    ensures
        total_tokens(b) == total_tokens(b.remove(i)) + b[i].len(),
{
    assert(b =~= (b.take(i) + seq![b[i]]) + b.skip(i + 1));
    assert(b.remove(i) =~= b.take(i) + b.skip(i + 1));
    lemma_total_tokens_add(b.take(i) + seq![b[i]], b.skip(i + 1));
    lemma_total_tokens_add(b.take(i), seq![b[i]]);
    lemma_total_tokens_add(b.take(i), b.skip(i + 1));
    assert(seq![b[i]].drop_last() =~= Seq::<Seq<Seq<char>>>::empty());
    assert(seq![b[i]].last() == b[i]);
    assert(total_tokens(Seq::<Seq<Seq<char>>>::empty()) == 0);
    assert(total_tokens(seq![b[i]]) == total_tokens(seq![b[i]].drop_last()) + seq![b[i]].last().len());
    assert(total_tokens(seq![b[i]]) == b[i].len());
}

/// Reordering a corpus does not change its total token count.
pub proof fn lemma_total_tokens_permutation(a: Seq<Seq<Seq<char>>>, b: Seq<Seq<Seq<char>>>)
    requires
        a.to_multiset() == b.to_multiset(),
    ensures
        total_tokens(a) == total_tokens(b),
    decreases a.len(),
{
    broadcast use vstd::seq_lib::group_to_multiset_ensures;

    if a.len() == 0 {
        assert(b.to_multiset().len() == 0);
    } else {
        let x = a.last();
        assert(a.contains(x)) by {
            assert(a[a.len() - 1] == x);
        }
        assert(a.to_multiset().count(x) > 0);
        assert(b.to_multiset().count(x) > 0);
        assert(b.contains(x));
        let i = choose|i: int| 0 <= i < b.len() && b[i] == x;
        assert(a =~= a.drop_last().push(x));
        assert(a.drop_last().push(x).to_multiset() == a.drop_last().to_multiset().insert(x));
        assert(b.remove(i).to_multiset() == b.to_multiset().remove(x));
        assert(a.drop_last().to_multiset() =~= b.remove(i).to_multiset());
        lemma_total_tokens_permutation(a.drop_last(), b.remove(i));
        lemma_total_tokens_remove(b, i);
    }
}

/// A document sharing no terms with the query scores exactly zero.
pub proof fn lemma_doc_score_zero(d: Seq<Seq<char>>, qu: Seq<Seq<char>>, s: nat, n: nat)
    requires
        forall|j: int| 0 <= j < qu.len() ==> count_term(d, #[trigger] qu[j]) == 0,
    ensures
        doc_score(d, qu, s, n) == 0,
    decreases qu.len(),
{
    if qu.len() == 0 {
    } else {
        assert(count_term(d, qu.last()) == 0) by {
            assert(qu[qu.len() - 1] == qu.last());
        }
        assert forall|j: int| 0 <= j < qu.drop_last().len() implies count_term(
            d,
            #[trigger] qu.drop_last()[j],
        ) == 0 by {
            assert(qu.drop_last()[j] == qu[j]);
        }
        lemma_doc_score_zero(d, qu.drop_last(), s, n);
    }
}

/// The distinct terms of a query, in order of first occurrence.
pub open spec fn dedup_terms(q: Seq<Seq<char>>) -> Seq<Seq<char>>
    decreases q.len(),
{
    if q.len() == 0 {
        Seq::empty()
    } else if q.drop_last().contains(q.last()) {
        dedup_terms(q.drop_last())
    } else {
        dedup_terms(q.drop_last()).push(q.last())
    }
}

/// Deduplication keeps exactly the terms of the query.
pub proof fn lemma_dedup_contains(q: Seq<Seq<char>>, t: Seq<char>)
    ensures
        dedup_terms(q).contains(t) <==> q.contains(t),
    decreases q.len(),
{
    if q.len() == 0 {
    } else {
        lemma_dedup_contains(q.drop_last(), t);
        assert(q.contains(t) <==> (q.drop_last().contains(t) || q.last() == t)) by {
            if q.contains(t) {
                let i = choose|i: int| 0 <= i < q.len() && q[i] == t;
                if i < q.len() - 1 {
                    assert(q.drop_last()[i] == t);
                }
            }
            if q.drop_last().contains(t) {
                let i = choose|i: int| 0 <= i < q.drop_last().len() && q.drop_last()[i] == t;
                assert(q[i] == t);
            }
            if q.last() == t {
                assert(q[q.len() - 1] == t);
            }
        }
        if !q.drop_last().contains(q.last()) {
            assert(dedup_terms(q) == dedup_terms(q.drop_last()).push(q.last()));
            if t == q.last() {
                assert(dedup_terms(q).last() == t);
            }
            if dedup_terms(q).contains(t) && t != q.last() {
                let i = choose|i: int| 0 <= i < dedup_terms(q).len() && dedup_terms(q)[i] == t;
                assert(dedup_terms(q.drop_last())[i] == t);
            }
            if dedup_terms(q.drop_last()).contains(t) {
                let i = choose|i: int|
                    0 <= i < dedup_terms(q.drop_last()).len() && dedup_terms(q.drop_last())[i]
                        == t;
                assert(dedup_terms(q)[i] == t);
            }
        }
    }
}

/// The scaled BM25 score of one document: the sum of the contributions
/// of the distinct query terms `qu`.
pub open spec fn doc_score(d: Seq<Seq<char>>, qu: Seq<Seq<char>>, s: nat, n: nat) -> nat
    decreases qu.len(),
{
    if qu.len() == 0 {
        0
    } else {
        doc_score(d, qu.drop_last(), s, n) + term_score(count_term(d, qu.last()), d.len(), s, n)
    }
}

/// A document's score is bounded by the number of distinct query terms.
pub proof fn lemma_doc_score_bound(d: Seq<Seq<char>>, qu: Seq<Seq<char>>, s: nat, n: nat)
    ensures
        doc_score(d, qu, s, n) <= qu.len() * (3 * SCORE_SCALE as nat),
    decreases qu.len(),
{
    if qu.len() == 0 {
    } else {
        lemma_doc_score_bound(d, qu.drop_last(), s, n);
        lemma_term_score_bound(count_term(d, qu.last()), d.len(), s, n);
        assert((qu.len() - 1) * (3 * SCORE_SCALE as nat) + (3 * SCORE_SCALE as nat) == qu.len() * (
        3 * SCORE_SCALE as nat)) by (nonlinear_arith);
    }
}

/// Clipping the corpus statistics before `doc_score` changes nothing.
pub proof fn lemma_doc_score_clip(d: Seq<Seq<char>>, qu: Seq<Seq<char>>, s: nat, n: nat)
    ensures
        doc_score(d, qu, clip(s), clip(n)) == doc_score(d, qu, s, n),
    decreases qu.len(),
{
    if qu.len() == 0 {
    } else {
        lemma_doc_score_clip(d, qu.drop_last(), s, n);
        lemma_term_score_clip(count_term(d, qu.last()), d.len(), s, n);
    }
}

/// Counts the occurrences of `term` among `tokens`.
pub(crate) fn count_occurrences(tokens: &Vec<String>, term: &String) -> (r: usize)
    ensures
        r as nat == count_term(tokens.deep_view(), term@),
{
    let ghost d = tokens.deep_view();
    let mut r: usize = 0;
    let mut i: usize = 0;
    while i < tokens.len()
        invariant
            0 <= i <= tokens.len(),
            d == tokens.deep_view(),
            d.len() == tokens.len(),
            r <= i,
            r as nat == count_term(d.take(i as int), term@),
        decreases tokens.len() - i,
    {
        proof {
            assert(d.take(i + 1).drop_last() =~= d.take(i as int));
            assert(d.take(i + 1).last() == d[i as int]);
            assert(d[i as int] == tokens@[i as int].deep_view());
        }
        if tokens[i].eq(term) {
            r = r + 1;
        }
        i = i + 1;
    }
    proof {
        assert(d.take(tokens.len() as int) =~= d);
    }
    r
}

/// Collects the distinct terms of `q`, first occurrence first.
pub(crate) fn dedup_exec(q: &Vec<String>) -> (r: Vec<String>)
    ensures
        r.deep_view() == dedup_terms(q.deep_view()),
{
    let ghost qd = q.deep_view();
    let mut r: Vec<String> = Vec::new();
    let mut i: usize = 0;
    while i < q.len()
        invariant
            0 <= i <= q.len(),
            qd == q.deep_view(),
            qd.len() == q.len(),
            r.deep_view() == dedup_terms(qd.take(i as int)),
        decreases q.len() - i,
    {
        proof {
            assert(qd.take(i + 1).drop_last() =~= qd.take(i as int));
            assert(qd.take(i + 1).last() == qd[i as int]);
            assert(qd[i as int] == q@[i as int].deep_view());
        }
        let mut seen = false;
        let mut j: usize = 0;
        while j < r.len()
            invariant
                0 <= j <= r.len(),
                seen <==> exists|k: int| 0 <= k < j && r.deep_view()[k] == q@[i as int]@,
                i < q.len(),
                r.deep_view().len() == r.len(),
            decreases r.len() - j,
        {
            if r[j].eq(&q[i]) {
                seen = true;
            }
            proof {
                assert(r.deep_view()[j as int] == r@[j as int]@);
            }
            j = j + 1;
        }
        proof {
            assert(seen <==> r.deep_view().contains(qd[i as int]));
            lemma_dedup_contains(qd.take(i as int), qd[i as int]);
        }
        if !seen {
            r.push(q[i].clone());
            proof {
                assert(r.deep_view() =~= dedup_terms(qd.take(i + 1)));
            }
        }
        i = i + 1;
    }
    proof {
        assert(qd.take(q.len() as int) =~= qd);
    }
    r
}

/// Sums the corpus's token counts, clipped to `STAT_CLIP`.
pub(crate) fn clipped_total(doc_tokens: &Vec<Vec<String>>) -> (r: u64)
    ensures
        r as nat == clip(total_tokens(doc_tokens.deep_view())),
        r <= STAT_CLIP,
{
    let ghost toks = doc_tokens.deep_view();
    let mut r: u64 = 0;
    let mut i: usize = 0;
    while i < doc_tokens.len()
        invariant
            0 <= i <= doc_tokens.len(),
            toks == doc_tokens.deep_view(),
            toks.len() == doc_tokens.len(),
            r as nat == clip(total_tokens(toks.take(i as int))),
            r <= STAT_CLIP,
        decreases doc_tokens.len() - i,
    {
        proof {
            assert(toks.take(i + 1).drop_last() =~= toks.take(i as int));
            assert(toks.take(i + 1).last() == toks[i as int]);
            assert(toks[i as int] == doc_tokens@[i as int].deep_view());
            assert(toks[i as int].len() == doc_tokens@[i as int]@.len());
        }
        let dl = doc_tokens[i].len();
        if dl as u64 >= STAT_CLIP {
            r = STAT_CLIP;
        } else {
            r = r + dl as u64;
            if r > STAT_CLIP {
                r = STAT_CLIP;
            }
        }
        i = i + 1;
    }
    proof {
        assert(toks.take(doc_tokens.len() as int) =~= toks);
    }
    r
}

/// Computes a document's score; the clipped statistics `sc` and `nc`
/// stand for the corpus totals `s` and `n`.
pub(crate) fn doc_score_exec(doc: &Vec<String>, qu: &Vec<String>, sc: u64, nc: u64) -> (r: u128)
    requires
        sc == clip(sc as nat),
        nc == clip(nc as nat),
    ensures
        r as nat == doc_score(doc.deep_view(), qu.deep_view(), sc as nat, nc as nat),
{
    let ghost d = doc.deep_view();
    let ghost qud = qu.deep_view();
    let mut r: u128 = 0;
    let mut t: usize = 0;
    while t < qu.len()
        invariant
            0 <= t <= qu.len(),
            d == doc.deep_view(),
            qud == qu.deep_view(),
            qud.len() == qu.len(),
            sc == clip(sc as nat),
            nc == clip(nc as nat),
            r as nat == doc_score(d, qud.take(t as int), sc as nat, nc as nat),
            r as nat <= (t as nat) * (3 * SCORE_SCALE as nat),
        decreases qu.len() - t,
    {
        proof {
            assert(qud.take(t + 1).drop_last() =~= qud.take(t as int));
            assert(qud.take(t + 1).last() == qud[t as int]);
            assert(qud[t as int] == qu@[t as int]@);
            assert(d.len() == doc.len());
        }
        let tf = count_occurrences(doc, &qu[t]);
        let ts = term_score_exec(tf, doc.len(), sc, nc);
        proof {
            lemma_term_score_bound(tf as nat, doc.len() as nat, sc as nat, nc as nat);
            assert((t as nat) * (3 * SCORE_SCALE as nat) + (3 * SCORE_SCALE as nat) == ((t + 1) as nat)
                * (3 * SCORE_SCALE as nat)) by (nonlinear_arith);
            assert(((t + 1) as nat) * (3 * SCORE_SCALE as nat) <= (usize::MAX as nat) * (3
                * SCORE_SCALE as nat)) by (nonlinear_arith)
                requires
                    t + 1 <= usize::MAX,
            ;
            assert((usize::MAX as nat) * (3 * SCORE_SCALE as nat) < u128::MAX as nat) by (
            nonlinear_arith)
                requires
                    usize::MAX as nat <= u64::MAX as nat,
            ;
        }
        r = r + ts as u128;
        t = t + 1;
    }
    proof {
        assert(qud.take(qu.len() as int) =~= qud);
    }
    r
}

} // verus!
