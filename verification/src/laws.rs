//! Laws of the ranking engine, proved once and for all inputs: the
//! result is a permutation of the corpus; an empty query and a query
//! sharing no terms with the corpus leave the order unchanged; the
//! ranked order is stable and descending; and ranking its own output
//! again changes nothing.

use crate::bm25::rank_spec;
use crate::bm25::rank_trigram;
use crate::bm25::ranking_order;
use crate::bm25::scores_of;
use crate::bm25::trigram_corpus;
use crate::order::apply_order;
use crate::order::ident_order;
use crate::order::is_ranked;
use crate::order::lemma_apply_ident_order;
use crate::order::lemma_apply_sorted_order_multiset;
use crate::order::lemma_sorted_order_ensures;
use crate::order::lemma_sorted_order_nonincreasing;
use crate::order::ranks_before;
use crate::order::sorted_order;
use crate::score::count_term;
use crate::score::dedup_terms;
use crate::score::doc_score;
use crate::score::lemma_dedup_contains;
use crate::score::lemma_doc_score_zero;
use crate::score::lemma_total_tokens_permutation;
use crate::score::total_tokens;
use crate::tokenize::trigram_tokens;
use vstd::prelude::*;

verus! {

/// Permutation law: for every corpus, the ranked result holds exactly
/// the input documents, with multiplicity.
pub proof fn lemma_rank_permutation(docs: Seq<String>, toks: Seq<Seq<Seq<char>>>, q: Seq<Seq<char>>)
    requires
        toks.len() == docs.len(),
    ensures
        rank_spec(docs, toks, q).to_multiset() == docs.to_multiset(),
        rank_spec(docs, toks, q).len() == docs.len(),
{
    lemma_sorted_order_ensures(scores_of(toks, dedup_terms(q)));
    lemma_apply_sorted_order_multiset(docs, scores_of(toks, dedup_terms(q)));
}

/// Stable-order law: the ranked order lists every document index
/// exactly once, by descending score, and documents with equal scores
/// keep their original relative order.
pub proof fn lemma_ranking_order_stable(toks: Seq<Seq<Seq<char>>>, q: Seq<Seq<char>>)
    ensures
        ranking_order(toks, q).len() == toks.len(),
        forall|x: int| ranking_order(toks, q).contains(x) <==> 0 <= x < toks.len(),
        is_ranked(ranking_order(toks, q), scores_of(toks, dedup_terms(q))),
{
    lemma_sorted_order_ensures(scores_of(toks, dedup_terms(q)));
}

/// Empty-query law: with no query tokens every document scores zero,
/// and the corpus comes back in its original order.
pub proof fn lemma_rank_empty_query(docs: Seq<String>, toks: Seq<Seq<Seq<char>>>, q: Seq<Seq<char>>)
    requires
        toks.len() == docs.len(),
        q.len() == 0,
    ensures
        rank_spec(docs, toks, q) == docs,
{
    let qu = dedup_terms(q);
    let sc = scores_of(toks, qu);
    assert forall|a: int, b: int| 0 <= a <= b < sc.len() implies sc[a] >= sc[b] by {
        assert(sc[a] == doc_score(toks[a], qu, total_tokens(toks), toks.len()));
        assert(sc[b] == doc_score(toks[b], qu, total_tokens(toks), toks.len()));
    }
    lemma_sorted_order_nonincreasing(sc);
    lemma_apply_ident_order(docs);
    assert(rank_spec(docs, toks, q) =~= docs);
}

/// No-match law: when no query term occurs in any document, every
/// document scores zero and the corpus comes back in its original
/// order.
pub proof fn lemma_rank_no_matches(docs: Seq<String>, toks: Seq<Seq<Seq<char>>>, q: Seq<Seq<char>>)
    requires
        toks.len() == docs.len(),
        forall|i: int, j: int|
            0 <= i < toks.len() && 0 <= j < q.len() ==> count_term(
                #[trigger] toks[i],
                #[trigger] q[j],
            ) == 0,
    ensures
        rank_spec(docs, toks, q) == docs,
{
    let qu = dedup_terms(q);
    let sc = scores_of(toks, qu);
    assert forall|a: int, b: int| 0 <= a <= b < sc.len() implies sc[a] >= sc[b] by {
        assert forall|i: int| 0 <= i < toks.len() implies doc_score(
            #[trigger] toks[i],
            qu,
            total_tokens(toks),
            toks.len(),
        ) == 0 by {
            assert forall|j: int| 0 <= j < qu.len() implies count_term(
                toks[i],
                #[trigger] qu[j],
            ) == 0 by {
                assert(qu.contains(qu[j]));
                lemma_dedup_contains(q, qu[j]);
                let m = choose|m: int| 0 <= m < q.len() && q[m] == qu[j];
                assert(count_term(toks[i], q[m]) == 0);
            }
            lemma_doc_score_zero(toks[i], qu, total_tokens(toks), toks.len());
        }
        assert(sc[a] == doc_score(toks[a], qu, total_tokens(toks), toks.len()));
        assert(sc[b] == doc_score(toks[b], qu, total_tokens(toks), toks.len()));
    }
    lemma_sorted_order_nonincreasing(sc);
    lemma_apply_ident_order(docs);
    assert(rank_spec(docs, toks, q) =~= docs);
}

/// Ranking `docs` against the query characters `q` when every string
/// is tokenized by the pure tokenizer `tk`.
pub open spec fn rank_by(
    docs: Seq<String>,
    q: Seq<char>,
    tk: spec_fn(Seq<char>) -> Seq<Seq<char>>,
) -> Seq<String> {
    rank_spec(docs, Seq::new(docs.len(), |i: int| tk(docs[i]@)), tk(q))
}

/// Idempotence law: ranking the ranked corpus again, with the same
/// query and the same pure tokenizer, returns it unchanged.
pub proof fn lemma_rank_idempotent(
    docs: Seq<String>,
    q: Seq<char>,
    tk: spec_fn(Seq<char>) -> Seq<Seq<char>>,
)
    ensures
        rank_by(rank_by(docs, q, tk), q, tk) == rank_by(docs, q, tk),
{
    let toks = Seq::new(docs.len(), |i: int| tk(docs[i]@));
    let qu = dedup_terms(tk(q));
    let sc = scores_of(toks, qu);
    let ord = sorted_order(sc);
    let r = rank_by(docs, q, tk);
    assert(r == apply_order(docs, ord));
    lemma_sorted_order_ensures(sc);
    let toks2 = Seq::new(r.len(), |i: int| tk(r[i]@));
    assert(toks2 =~= apply_order(toks, ord)) by {
        assert forall|k: int| 0 <= k < r.len() implies toks2[k] == apply_order(toks, ord)[k] by {
            assert(0 <= ord[k] < toks.len());
            assert(r[k] == docs[ord[k]]);
        }
    }
    lemma_apply_sorted_order_multiset(toks, sc);
    lemma_total_tokens_permutation(toks2, toks);
    let sc2 = scores_of(toks2, qu);
    assert forall|a: int, b: int| 0 <= a <= b < sc2.len() implies sc2[a] >= sc2[b] by {
        assert(0 <= ord[a] < toks.len());
        assert(0 <= ord[b] < toks.len());
        assert(toks2[a] == toks[ord[a]]);
        assert(toks2[b] == toks[ord[b]]);
        assert(sc2[a] == doc_score(toks[ord[a]], qu, total_tokens(toks), toks.len()));
        assert(sc2[b] == doc_score(toks[ord[b]], qu, total_tokens(toks), toks.len()));
        assert(sc2[a] == sc[ord[a]]);
        assert(sc2[b] == sc[ord[b]]);
        if a < b {
            assert(ranks_before(sc, ord[a], ord[b]));
        }
    }
    lemma_sorted_order_nonincreasing(sc2);
    lemma_apply_ident_order(r);
    assert(rank_by(r, q, tk) =~= r);
}

/// The idempotence law at the public trigram interface.
pub proof fn lemma_rank_trigram_idempotent(docs: Seq<String>, q: Seq<char>)
    ensures
        rank_trigram(rank_trigram(docs, q), q) == rank_trigram(docs, q),
{
    let tk = |s: Seq<char>| trigram_tokens(s);
    assert(rank_by(docs, q, tk) == rank_trigram(docs, q)) by {
        assert(Seq::new(docs.len(), |i: int| tk(docs[i]@)) =~= trigram_corpus(docs));
    }
    let r = rank_trigram(docs, q);
    assert(rank_by(r, q, tk) == rank_trigram(r, q)) by {
        assert(Seq::new(r.len(), |i: int| tk(r[i]@)) =~= trigram_corpus(r));
    }
    lemma_rank_idempotent(docs, q, tk);
}

} // verus!
