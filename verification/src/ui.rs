//! Filtering of the note list: the pure reordering the interactive
//! view applies whenever one of its filter fields changes.  The notes
//! are ranked by trigram relevance of their titles to the title
//! filter, then of their bodies to the body filter; an empty filter
//! leaves the order alone.

use crate::bm25::rank_indices;
use crate::bm25::ranking_order;
use crate::bm25::scores_of;
use crate::bm25::trigram_corpus;
use crate::note::Note;
use crate::order::apply_order;
use crate::order::lemma_apply_sorted_order_multiset;
use crate::order::lemma_sorted_order_ensures;
use crate::score::dedup_terms;
use crate::tokenize::ngram_tokenize;
use crate::tokenize::trigram_tokens;
use vstd::prelude::*;

verus! {

/// The titles of the notes, in order.
pub open spec fn titles_of(notes: Seq<Note>) -> Seq<String> {
    notes.map_values(|n: Note| n.title)
}

/// The bodies of the notes, in order.
pub open spec fn bodies_of(notes: Seq<Note>) -> Seq<String> {
    notes.map_values(|n: Note| n.body)
}

/// The ranked order of the notes when each is ranked by the key
/// string standing at its position, under the trigram tokenizer.
pub open spec fn keyed_trigram_order(keys: Seq<String>, q: Seq<char>) -> Seq<int> {
    ranking_order(trigram_corpus(keys), trigram_tokens(q))
}

/// The filtered note list: ranked by title relevance when a title
/// filter is set, then by body relevance when a body filter is set.
pub open spec fn filtered_notes_spec(
    notes: Seq<Note>,
    title_filter: Seq<char>,
    body_filter: Seq<char>,
) -> Seq<Note> {
    let by_title = if title_filter.len() == 0 {
        notes
    } else {
        apply_order(notes, keyed_trigram_order(titles_of(notes), title_filter))
    };
    if body_filter.len() == 0 {
        by_title
    } else {
        apply_order(by_title, keyed_trigram_order(bodies_of(by_title), body_filter))
    }
}

/// Ranks the notes by the trigram relevance of their key strings
/// (one key per note, at the same position) to `query`.  Notes
/// travel with their position: equal keys are ranked each for
/// itself.
fn rank_notes_by_keys(notes: &Vec<Note>, keys: &Vec<String>, query: &str) -> (r: Vec<Note>)
    requires
        keys@.len() == notes@.len(),
    ensures
        r@ == apply_order(notes@, keyed_trigram_order(keys@, query@)),
        r@.to_multiset() == notes@.to_multiset(),
        r@.len() == notes@.len(),
{
    let ghost ord_spec = keyed_trigram_order(keys@, query@);
    let mut doc_tokens: Vec<Vec<String>> = Vec::new();
    let mut i: usize = 0;
    while i < keys.len()
        invariant
            0 <= i <= keys@.len(),
            doc_tokens@.len() == i,
            forall|k: int|
                0 <= k < i ==> #[trigger] doc_tokens.deep_view()[k] == trigram_tokens(keys@[k]@),
        decreases keys@.len() - i,
    {
        let t = ngram_tokenize(keys[i].as_str());
        let ghost dv0 = doc_tokens.deep_view();
        doc_tokens.push(t);
        proof {
            assert(doc_tokens.deep_view() =~= dv0.push(doc_tokens@[i as int].deep_view()));
        }
        i = i + 1;
    }
    let query_tokens = ngram_tokenize(query);
    proof {
        assert(doc_tokens.deep_view() =~= trigram_corpus(keys@));
    }
    let ord = rank_indices(&doc_tokens, &query_tokens);
    let mut r: Vec<Note> = Vec::new();
    let mut k: usize = 0;
    while k < ord.len()
        invariant
            0 <= k <= ord.len(),
            ord@.len() == notes@.len(),
            forall|m: int| 0 <= m < ord@.len() ==> #[trigger] ord@[m] as int == ord_spec[m],
            forall|m: int| 0 <= m < ord@.len() ==> #[trigger] ord@[m] < notes@.len(),
            r@.len() == k,
            forall|m: int| 0 <= m < k ==> #[trigger] r@[m] == notes@[ord_spec[m]],
        decreases ord.len() - k,
    {
        let idx = ord[k];
        r.push(notes[idx].clone());
        k = k + 1;
    }
    proof {
        lemma_sorted_order_ensures(
            scores_of(trigram_corpus(keys@), dedup_terms(trigram_tokens(query@))),
        );
        assert(r@ =~= apply_order(notes@, ord_spec));
        lemma_apply_sorted_order_multiset(
            notes@,
            scores_of(trigram_corpus(keys@), dedup_terms(trigram_tokens(query@))),
        );
    }
    r
}

/// Reorders the note list as the view's filters ask: by title
/// relevance to `title_filter` when it is non-empty, then by body
/// relevance to `body_filter` when it is non-empty.  The result is
/// always a permutation of the notes.
pub fn update_filtered_notes(notes: &Vec<Note>, title_filter: &str, body_filter: &str) -> (r: Vec<
    Note,
>)
    ensures
        r@ == filtered_notes_spec(notes@, title_filter@, body_filter@),
        r@.to_multiset() == notes@.to_multiset(),
        r@.len() == notes@.len(),
{
    let mut cur: Vec<Note> = Vec::new();
    let mut i: usize = 0;
    while i < notes.len()
        invariant
            0 <= i <= notes@.len(),
            cur@.len() == i,
            forall|k: int| 0 <= k < i ==> #[trigger] cur@[k] == notes@[k],
        decreases notes@.len() - i,
    {
        cur.push(notes[i].clone());
        i = i + 1;
    }
    proof {
        assert(cur@ =~= notes@);
    }
    if !title_filter.is_empty() {
        let mut titles: Vec<String> = Vec::new();
        let mut j: usize = 0;
        while j < cur.len()
            invariant
                0 <= j <= cur@.len(),
                titles@.len() == j,
                forall|k: int| 0 <= k < j ==> #[trigger] titles@[k] == cur@[k].title,
            decreases cur@.len() - j,
        {
            titles.push(cur[j].title.clone());
            j = j + 1;
        }
        proof {
            assert(titles@ =~= titles_of(cur@));
        }
        cur = rank_notes_by_keys(&cur, &titles, title_filter);
    }
    if !body_filter.is_empty() {
        let mut bodies: Vec<String> = Vec::new();
        let mut j: usize = 0;
        while j < cur.len()
            invariant
                0 <= j <= cur@.len(),
                bodies@.len() == j,
                forall|k: int| 0 <= k < j ==> #[trigger] bodies@[k] == cur@[k].body,
            decreases cur@.len() - j,
        {
            bodies.push(cur[j].body.clone());
            j = j + 1;
        }
        proof {
            assert(bodies@ =~= bodies_of(cur@));
        }
        cur = rank_notes_by_keys(&cur, &bodies, body_filter);
    }
    cur
}

} // verus!
