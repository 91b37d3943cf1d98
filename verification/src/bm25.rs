//! The BM25 ranking engine.
//!
//! `bm25` reorders a corpus of documents by relevance to a query: it
//! tokenizes every document and the query with a caller-supplied
//! tokenizer, scores every document (see [`crate::score`]), and
//! returns the documents by descending score, stable on ties (see
//! [`crate::order`]).  `bm25_trigram` is the same engine with the
//! trigram tokenizer fixed, and so carries an exact contract.

use crate::note::note_text;
use crate::note::note_text_spec;
use crate::note::Note;
use crate::order::apply_order;
use crate::order::lemma_apply_sorted_order_multiset;
use crate::order::lemma_sorted_order_ensures;
use crate::order::scores_view;
use crate::order::sort_indices;
use crate::order::sorted_order;
use crate::score::clip;
use crate::score::clip_stat;
use crate::score::clipped_total;
use crate::score::dedup_exec;
use crate::score::dedup_terms;
use crate::score::doc_score;
use crate::score::doc_score_exec;
use crate::score::lemma_doc_score_clip;
use crate::score::total_tokens;
use crate::tokenize::ngram_tokenize;
use crate::tokenize::trigram_tokens;
use vstd::prelude::*;

verus! {

/// The score of every document of the tokenized corpus `toks`
/// against the distinct query terms `qu`.
pub open spec fn scores_of(toks: Seq<Seq<Seq<char>>>, qu: Seq<Seq<char>>) -> Seq<nat> {
    Seq::new(toks.len(), |i: int| doc_score(toks[i], qu, total_tokens(toks), toks.len()))
}

/// The ranked order of the documents tokenized as `toks` against the
/// query tokenized as `q`: document indices by descending BM25 score,
/// stable on ties.
pub open spec fn ranking_order(toks: Seq<Seq<Seq<char>>>, q: Seq<Seq<char>>) -> Seq<int> {
    sorted_order(scores_of(toks, dedup_terms(q)))
}

/// The documents `docs`, tokenized as `toks`, reordered by relevance
/// to the query tokenized as `q`.
pub open spec fn rank_spec(docs: Seq<String>, toks: Seq<Seq<Seq<char>>>, q: Seq<Seq<char>>) -> Seq<
    String,
> {
    apply_order(docs, ranking_order(toks, q))
}

/// Computes the ranked order of the already tokenized corpus
/// `doc_tokens` against the already tokenized query `query_tokens`.
pub fn rank_indices(doc_tokens: &Vec<Vec<String>>, query_tokens: &Vec<String>) -> (r: Vec<usize>)
    ensures
        r@.len() == doc_tokens@.len(),
        forall|k: int|
            0 <= k < r@.len() ==> #[trigger] r@[k] as int == ranking_order(
                doc_tokens.deep_view(),
                query_tokens.deep_view(),
            )[k],
        forall|k: int| 0 <= k < r@.len() ==> #[trigger] r@[k] < doc_tokens@.len(),
{
    let ghost toks = doc_tokens.deep_view();
    let ghost qspec = dedup_terms(query_tokens.deep_view());
    let qu = dedup_exec(query_tokens);
    let scv = clipped_total(doc_tokens);
    let ncv = clip_stat(doc_tokens.len());
    proof {
        assert(clip(scv as nat) == scv as nat);
        assert(clip(ncv as nat) == ncv as nat);
    }
    let n = doc_tokens.len();
    let mut scores: Vec<u128> = Vec::new();
    let mut i: usize = 0;
    while i < n
        invariant
            0 <= i <= n,
            n == doc_tokens@.len(),
            toks == doc_tokens.deep_view(),
            toks.len() == n,
            qu.deep_view() == qspec,
            scv as nat == clip(total_tokens(toks)),
            ncv as nat == clip(n as nat),
            scv == clip(scv as nat),
            ncv == clip(ncv as nat),
            scores@.len() == i,
            forall|k: int|
                0 <= k < i ==> #[trigger] scores@[k] as nat == scores_of(toks, qspec)[k],
        decreases n - i,
    {
        let s = doc_score_exec(&doc_tokens[i], &qu, scv, ncv);
        proof {
            assert(doc_tokens[i as int].deep_view() == toks[i as int]);
            lemma_doc_score_clip(toks[i as int], qspec, total_tokens(toks), n as nat);
        }
        scores.push(s);
        i = i + 1;
    }
    proof {
        assert(scores_view(scores@) =~= scores_of(toks, qspec));
        lemma_sorted_order_ensures(scores_of(toks, qspec));
    }
    sort_indices(&scores)
}

/// Reorders `documents`, already tokenized as `doc_tokens`, by
/// relevance to the query already tokenized as `query_tokens`.  The
/// result is the permutation of the documents given by
/// [`ranking_order`]: descending BM25 score, stable on ties.
pub fn rank_with_tokens(
    documents: &[String],
    doc_tokens: &Vec<Vec<String>>,
    query_tokens: &Vec<String>,
) -> (r: Vec<String>)
    requires
        doc_tokens@.len() == documents@.len(),
    ensures
        r@ == rank_spec(documents@, doc_tokens.deep_view(), query_tokens.deep_view()),
        r@.to_multiset() == documents@.to_multiset(),
        r@.len() == documents@.len(),
{
    let ghost toks = doc_tokens.deep_view();
    let ghost q = query_tokens.deep_view();
    let ord = rank_indices(doc_tokens, query_tokens);
    let mut r: Vec<String> = Vec::new();
    let mut k: usize = 0;
    while k < ord.len()
        invariant
            0 <= k <= ord.len(),
            ord@.len() == documents@.len(),
            forall|m: int|
                0 <= m < ord@.len() ==> #[trigger] ord@[m] as int == ranking_order(toks, q)[m],
            forall|m: int| 0 <= m < ord@.len() ==> #[trigger] ord@[m] < documents@.len(),
            r@.len() == k,
            forall|m: int| 0 <= m < k ==> #[trigger] r@[m] == documents@[ranking_order(toks, q)[m]],
        decreases ord.len() - k,
    {
        let idx = ord[k];
        r.push(documents[idx].clone());
        k = k + 1;
    }
    proof {
        lemma_sorted_order_ensures(scores_of(toks, dedup_terms(q)));
        assert(r@ =~= rank_spec(documents@, toks, q));
        lemma_apply_sorted_order_multiset(documents@, scores_of(toks, dedup_terms(q)));
    }
    r
}

/// Every document of `docs`, tokenized into trigrams.
pub open spec fn trigram_corpus(docs: Seq<String>) -> Seq<Seq<Seq<char>>> {
    Seq::new(docs.len(), |i: int| trigram_tokens(docs[i]@))
}

/// The documents `docs` reordered by BM25 relevance under the trigram
/// tokenizer to a query with the characters `q`.
pub open spec fn rank_trigram(docs: Seq<String>, q: Seq<char>) -> Seq<String> {
    rank_spec(docs, trigram_corpus(docs), trigram_tokens(q))
}

/// Ranks `documents` against `target_string` with the trigram
/// tokenizer: the result is the same documents, reordered by
/// descending BM25 score, stable on ties.
pub fn bm25_trigram(documents: &[String], target_string: &str) -> (r: Vec<String>)
    ensures
        r@ == rank_trigram(documents@, target_string@),
        r@.to_multiset() == documents@.to_multiset(),
        r@.len() == documents@.len(),
        documents@.len() == 0 ==> r@ == Seq::<String>::empty(),
{
    let mut doc_tokens: Vec<Vec<String>> = Vec::new();
    let mut i: usize = 0;
    while i < documents.len()
        invariant
            0 <= i <= documents@.len(),
            doc_tokens@.len() == i,
            forall|k: int|
                0 <= k < i ==> #[trigger] doc_tokens.deep_view()[k] == trigram_tokens(
                    documents@[k]@,
                ),
        decreases documents@.len() - i,
    {
        let t = ngram_tokenize(documents[i].as_str());
        let ghost dv0 = doc_tokens.deep_view();
        doc_tokens.push(t);
        proof {
            assert(doc_tokens.deep_view() =~= dv0.push(t.deep_view()));
        }
        i = i + 1;
    }
    let query_tokens = ngram_tokenize(target_string);
    proof {
        assert(doc_tokens.deep_view() =~= trigram_corpus(documents@));
    }
    let r = rank_with_tokens(documents, &doc_tokens, &query_tokens);
    proof {
        lemma_sorted_order_ensures(
            scores_of(trigram_corpus(documents@), dedup_terms(trigram_tokens(target_string@))),
        );
        if documents@.len() == 0 {
            assert(r@ =~= Seq::<String>::empty());
        }
    }
    r
}

/// The ranked order of notes under the trigram tokenizer, each note
/// standing for the document "title body".
pub open spec fn notes_trigram_order(notes: Seq<Note>, q: Seq<char>) -> Seq<int> {
    ranking_order(
        Seq::new(notes.len(), |i: int| trigram_tokens(note_text_spec(notes[i]))),
        trigram_tokens(q),
    )
}

/// Sorts notes by relevance to `query` using BM25 with trigram
/// tokenization; each note is ranked by its title and body joined by
/// a space.  Notes travel with their position, so notes with equal
/// text are still ranked each for itself.
pub fn sort_notes_trigram(notes: &[Note], query: &str) -> (r: Vec<Note>)
    ensures
        r@ == apply_order(notes@, notes_trigram_order(notes@, query@)),
        r@.to_multiset() == notes@.to_multiset(),
        r@.len() == notes@.len(),
{
    let ghost ord_spec = notes_trigram_order(notes@, query@);
    let mut doc_tokens: Vec<Vec<String>> = Vec::new();
    let mut i: usize = 0;
    while i < notes.len()
        invariant
            0 <= i <= notes@.len(),
            doc_tokens@.len() == i,
            forall|k: int|
                0 <= k < i ==> #[trigger] doc_tokens.deep_view()[k] == trigram_tokens(
                    note_text_spec(notes@[k]),
                ),
        decreases notes@.len() - i,
    {
        let text = note_text(&notes[i]);
        let t = ngram_tokenize(text.as_str());
        let ghost dv0 = doc_tokens.deep_view();
        doc_tokens.push(t);
        proof {
            assert(doc_tokens.deep_view() =~= dv0.push(doc_tokens@[i as int].deep_view()));
        }
        i = i + 1;
    }
    let query_tokens = ngram_tokenize(query);
    proof {
        assert(doc_tokens.deep_view() =~= Seq::new(
            notes@.len(),
            |i: int| trigram_tokens(note_text_spec(notes@[i])),
        ));
    }
    let ord = rank_indices(&doc_tokens, &query_tokens);
    let mut r: Vec<Note> = Vec::new();
    let mut k: usize = 0;
    while k < ord.len()
        invariant
            0 <= k <= ord.len(),
            ord@.len() == notes@.len(),
            forall|m: int| 0 <= m < ord@.len() ==> #[trigger] ord@[m] as int == ord_spec[m],
            forall|m: int| 0 <= m < ord@.len() ==> #[trigger] ord@[m] < notes@.len(),
            r@.len() == k,
            forall|m: int| 0 <= m < k ==> #[trigger] r@[m] == notes@[ord_spec[m]],
        decreases ord.len() - k,
    {
        let idx = ord[k];
        r.push(notes[idx].clone());
        k = k + 1;
    }
    proof {
        lemma_sorted_order_ensures(
            scores_of(
                Seq::new(notes@.len(), |i: int| trigram_tokens(note_text_spec(notes@[i]))),
                dedup_terms(trigram_tokens(query@)),
            ),
        );
        assert(r@ =~= apply_order(notes@, ord_spec));
        lemma_apply_sorted_order_multiset(
            notes@,
            scores_of(
                Seq::new(notes@.len(), |i: int| trigram_tokens(note_text_spec(notes@[i]))),
                dedup_terms(trigram_tokens(query@)),
            ),
        );
    }
    r
}

/// The tokenizer `f` can turn a string with the characters `input`
/// into tokens with the characters `out`.
pub open spec fn tokenizes_to<F: Fn(&str) -> Vec<String>>(
    f: F,
    input: Seq<char>,
    out: Seq<Seq<char>>,
) -> bool {
    exists|x: &str, v: Vec<String>|
        x@ == input && v.deep_view() == out && call_ensures(f, (x,), v)
}

/// Ranks `documents` against `target_string` with the caller-supplied
/// tokenizer: the result is a permutation of the documents, reordered
/// by descending BM25 score over whatever tokens the tokenizer
/// returned for each document and for the query, stable on ties.
pub fn bm25<F: Fn(&str) -> Vec<String>>(
    documents: &[String],
    target_string: &str,
    tokenize: F,
) -> (r: Vec<String>)
    requires
        forall|x: &str| #[trigger] call_requires(tokenize, (x,)),
    ensures
        r@.to_multiset() == documents@.to_multiset(),
        r@.len() == documents@.len(),
        documents@.len() == 0 ==> r@ == Seq::<String>::empty(),
        exists|toks: Seq<Seq<Seq<char>>>, qt: Seq<Seq<char>>|
            {
                &&& toks.len() == documents@.len()
                &&& forall|i: int|
                    0 <= i < documents@.len() ==> tokenizes_to(
                        tokenize,
                        documents@[i]@,
                        #[trigger] toks[i],
                    )
                &&& tokenizes_to(tokenize, target_string@, qt)
                &&& r@ == rank_spec(documents@, toks, qt)
            },
{
    let mut doc_tokens: Vec<Vec<String>> = Vec::new();
    let mut i: usize = 0;
    while i < documents.len()
        invariant
            0 <= i <= documents@.len(),
            doc_tokens@.len() == i,
            forall|x: &str| #[trigger] call_requires(tokenize, (x,)),
            forall|k: int|
                0 <= k < i ==> tokenizes_to(
                    tokenize,
                    documents@[k]@,
                    #[trigger] doc_tokens.deep_view()[k],
                ),
        decreases documents@.len() - i,
    {
        let d = documents[i].as_str();
        let t = tokenize(d);
        let ghost dv0 = doc_tokens.deep_view();
        proof {
            assert(d@ == documents@[i as int]@ && t.deep_view() == t.deep_view() && call_ensures(
                tokenize,
                (d,),
                t,
            ));
        }
        doc_tokens.push(t);
        proof {
            assert(doc_tokens.deep_view() =~= dv0.push(doc_tokens@[i as int].deep_view()));
        }
        i = i + 1;
    }
    let query_tokens = tokenize(target_string);
    let r = rank_with_tokens(documents, &doc_tokens, &query_tokens);
    proof {
        let toksw = doc_tokens.deep_view();
        let qtw = query_tokens.deep_view();
        assert(tokenizes_to(tokenize, target_string@, qtw));
        assert({
            &&& toksw.len() == documents@.len()
            &&& forall|i: int|
                0 <= i < documents@.len() ==> tokenizes_to(
                    tokenize,
                    documents@[i]@,
                    #[trigger] toksw[i],
                )
            &&& tokenizes_to(tokenize, target_string@, qtw)
            &&& r@ == rank_spec(documents@, toksw, qtw)
        });
        lemma_sorted_order_ensures(scores_of(toksw, dedup_terms(qtw)));
        if documents@.len() == 0 {
            assert(r@ =~= Seq::<String>::empty());
        }
    }
    r
}

} // verus!
