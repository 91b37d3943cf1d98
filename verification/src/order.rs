//! Stable descending order of scored documents.
//!
//! Documents are sorted by score, highest first; documents with equal
//! scores keep their original relative order.  Equivalently, the
//! result is sorted by the strict total order `ranks_before`: higher
//! score first, and on equal scores the lower original index first.
//! The order is computed by insertion sort, defined here as a spec
//! function and mirrored by the executable sort.

use vstd::multiset::Multiset;
use vstd::prelude::*;
use vstd::seq_lib::lemma_multiset_commutative;

verus! {

/// Document `i` must stand before document `j`: its score is higher,
/// or the scores tie and `i` is the earlier document.
pub open spec fn ranks_before(sc: Seq<nat>, i: int, j: int) -> bool {
    sc[i] > sc[j] || (sc[i] == sc[j] && i < j)
}

/// An index sequence sorted by `ranks_before`.
pub open spec fn is_ranked(ord: Seq<int>, sc: Seq<nat>) -> bool {
    forall|a: int, b: int| 0 <= a < b < ord.len() ==> ranks_before(sc, ord[a], ord[b])
}

/// Inserts index `j` into the ranked sequence `p`: `j` goes in front
/// of the first index whose score is strictly below `j`'s, and so
/// after every index that ties with or beats it.
pub open spec fn insert_ranked(p: Seq<int>, j: int, sc: Seq<nat>) -> Seq<int>
    decreases p.len(),
{
    if p.len() == 0 {
        seq![j]
    } else if sc[p[0]] < sc[j] {
        seq![j] + p
    } else {
        seq![p[0]] + insert_ranked(p.drop_first(), j, sc)
    }
}

/// The position where `insert_ranked` puts `j`.
pub open spec fn insert_pos(p: Seq<int>, j: int, sc: Seq<nat>) -> int
    decreases p.len(),
{
    if p.len() == 0 {
        0
    } else if sc[p[0]] < sc[j] {
        0
    } else {
        1 + insert_pos(p.drop_first(), j, sc)
    }
}

/// The ranked order of the first `k` documents.
pub open spec fn order_upto(sc: Seq<nat>, k: int) -> Seq<int>
    decreases k,
{
    if k <= 0 {
        Seq::empty()
    } else {
        insert_ranked(order_upto(sc, k - 1), k - 1, sc)
    }
}

/// The ranked order of all documents with scores `sc`: the stable
/// descending sort of the indices `0 .. sc.len()`.
pub open spec fn sorted_order(sc: Seq<nat>) -> Seq<int> {
    order_upto(sc, sc.len() as int)
}

/// The identity order `0, 1, .., k-1`.
pub open spec fn ident_order(k: int) -> Seq<int> {
    Seq::new(if k >= 0 {
        k as nat
    } else {
        0
    }, |i: int| i)
}

/// Reorders `xs` by the index sequence `ord`.
pub open spec fn apply_order<T>(xs: Seq<T>, ord: Seq<int>) -> Seq<T> {
    Seq::new(ord.len(), |k: int| xs[ord[k]])
}

/// `insert_ranked` splits `p` at `insert_pos`: everything before keeps
/// a score at least `j`'s, and the first index after has a score
/// strictly below it.
pub proof fn lemma_insert_ranked_split(p: Seq<int>, j: int, sc: Seq<nat>)
    ensures
        0 <= insert_pos(p, j, sc) <= p.len(),
        insert_ranked(p, j, sc) =~= p.take(insert_pos(p, j, sc)) + seq![j] + p.skip(
            insert_pos(p, j, sc),
        ),
        forall|k: int| 0 <= k < insert_pos(p, j, sc) ==> !(sc[p[k]] < sc[j]),
        insert_pos(p, j, sc) < p.len() ==> sc[p[insert_pos(p, j, sc)]] < sc[j],
    decreases p.len(),
{
    if p.len() == 0 {
    } else if sc[p[0]] < sc[j] {
        assert(insert_ranked(p, j, sc) =~= p.take(0) + seq![j] + p.skip(0));
    } else {
        let rest = p.drop_first();
        lemma_insert_ranked_split(rest, j, sc);
        let ip = insert_pos(rest, j, sc);
        assert(p.take(1 + ip) =~= seq![p[0]] + rest.take(ip));
        assert(p.skip(1 + ip) =~= rest.skip(ip));
        assert(insert_ranked(p, j, sc) =~= p.take(1 + ip) + seq![j] + p.skip(1 + ip));
        assert forall|k: int| 0 <= k < 1 + ip implies !(sc[p[k]] < sc[j]) by {
            if k > 0 {
                assert(p[k] == rest[k - 1]);
            }
        }
        if 1 + ip < p.len() {
            assert(p[1 + ip] == rest[ip]);
        }
    }
}

/// The insertion position is determined by its boundary conditions.
pub proof fn lemma_insert_pos_of_boundary(p: Seq<int>, j: int, sc: Seq<nat>, m: int)
    requires
        0 <= m <= p.len(),
        forall|k: int| 0 <= k < m ==> !(sc[#[trigger] p[k]] < sc[j]),
        m < p.len() ==> sc[p[m]] < sc[j],
    ensures
        insert_pos(p, j, sc) == m,
    decreases p.len(),
{
    if p.len() == 0 {
    } else if sc[p[0]] < sc[j] {
        assert(m == 0) by {
            if m > 0 {
                assert(!(sc[p[0]] < sc[j]));
            }
        }
    } else {
        let rest = p.drop_first();
        assert(m >= 1) by {
            if m == 0 {
                assert(sc[p[0]] < sc[j]);
            }
        }
        assert forall|k: int| 0 <= k < m - 1 implies !(sc[#[trigger] rest[k]] < sc[j]) by {
            assert(rest[k] == p[k + 1]);
        }
        assert(m - 1 < rest.len() ==> sc[rest[m - 1]] < sc[j]) by {
            if m - 1 < rest.len() {
                assert(rest[m - 1] == p[m]);
            }
        }
        lemma_insert_pos_of_boundary(rest, j, sc, m - 1);
    }
}

/// When no score in `p` lies below `j`'s, `j` is inserted at the end.
pub proof fn lemma_insert_ranked_at_end(p: Seq<int>, j: int, sc: Seq<nat>)
    requires
        forall|k: int| 0 <= k < p.len() ==> !(sc[#[trigger] p[k]] < sc[j]),
    ensures
        insert_ranked(p, j, sc) =~= p.push(j),
{
    lemma_insert_pos_of_boundary(p, j, sc, p.len() as int);
    lemma_insert_ranked_split(p, j, sc);
    assert(p.take(p.len() as int) =~= p);
    assert(p.skip(p.len() as int) =~= Seq::empty());
    assert(p.take(p.len() as int) + seq![j] + p.skip(p.len() as int) =~= p.push(j));
}

/// Inserting adds one index and keeps the rest.
pub proof fn lemma_insert_ranked_len(p: Seq<int>, j: int, sc: Seq<nat>)
    ensures
        insert_ranked(p, j, sc).len() == p.len() + 1,
{
    lemma_insert_ranked_split(p, j, sc);
}

/// The indices of `insert_ranked(p, j, sc)` are those of `p` plus `j`.
pub proof fn lemma_insert_ranked_contains(p: Seq<int>, j: int, sc: Seq<nat>, x: int)
    ensures
        insert_ranked(p, j, sc).contains(x) <==> (p.contains(x) || x == j),
{
    lemma_insert_ranked_split(p, j, sc);
    let ip = insert_pos(p, j, sc);
    let q = p.take(ip) + seq![j] + p.skip(ip);
    assert(p =~= p.take(ip) + p.skip(ip));
    if q.contains(x) {
        let a = choose|a: int| 0 <= a < q.len() && q[a] == x;
        if a < ip {
            assert(p[a] == x);
        } else if a == ip {
        } else {
            assert(p[a - 1] == x);
        }
    }
    if p.contains(x) {
        let a = choose|a: int| 0 <= a < p.len() && p[a] == x;
        if a < ip {
            assert(q[a] == x);
        } else {
            assert(q[a + 1] == x);
        }
    }
    if x == j {
        assert(q[ip] == x);
    }
}

/// Every index of `order_upto(sc, k)` lies in `0 .. k`, each exactly
/// once, and there are `k` of them.
pub proof fn lemma_order_upto_contents(sc: Seq<nat>, k: int)
    requires
        k >= 0,
    ensures
        order_upto(sc, k).len() == k,
        forall|x: int| order_upto(sc, k).contains(x) <==> 0 <= x < k,
        forall|a: int|
            0 <= a < k ==> 0 <= #[trigger] order_upto(sc, k)[a] < k,
    decreases k,
{
    if k == 0 {
    } else {
        lemma_order_upto_contents(sc, k - 1);
        lemma_insert_ranked_len(order_upto(sc, k - 1), k - 1, sc);
        assert forall|x: int| order_upto(sc, k).contains(x) <==> 0 <= x < k by {
            lemma_insert_ranked_contains(order_upto(sc, k - 1), k - 1, sc, x);
        }
        assert forall|a: int| 0 <= a < k implies 0 <= #[trigger] order_upto(sc, k)[a] < k by {
            assert(order_upto(sc, k).contains(order_upto(sc, k)[a]));
        }
    }
}

/// Inserting into a ranked sequence of earlier indices keeps it ranked.
pub proof fn lemma_insert_ranked_sorted(p: Seq<int>, j: int, sc: Seq<nat>)
    requires
        is_ranked(p, sc),
        forall|k: int| 0 <= k < p.len() ==> #[trigger] p[k] < j,
    ensures
        is_ranked(insert_ranked(p, j, sc), sc),
{
    lemma_insert_ranked_split(p, j, sc);
    let ip = insert_pos(p, j, sc);
    let q = p.take(ip) + seq![j] + p.skip(ip);
    assert forall|a: int, b: int| 0 <= a < b < q.len() implies ranks_before(sc, q[a], q[b]) by {
        if a < ip && b < ip {
            assert(q[a] == p[a] && q[b] == p[b]);
        } else if a < ip && b == ip {
            assert(q[a] == p[a]);
            assert(!(sc[p[a]] < sc[j]));
        } else if a < ip && b > ip {
            assert(q[a] == p[a] && q[b] == p[b - 1]);
        } else if a == ip {
            assert(q[b] == p[b - 1]);
            if b - 1 == ip {
                assert(sc[p[ip]] < sc[j]);
            } else {
                assert(ranks_before(sc, p[ip], p[b - 1]));
                assert(sc[p[ip]] < sc[j]);
            }
        } else {
            assert(q[a] == p[a - 1] && q[b] == p[b - 1]);
        }
    }
}

/// The ranked order is sorted by `ranks_before`.
pub proof fn lemma_order_upto_sorted(sc: Seq<nat>, k: int)
    requires
        k >= 0,
    ensures
        is_ranked(order_upto(sc, k), sc),
    decreases k,
{
    if k == 0 {
        assert(is_ranked(order_upto(sc, 0), sc));
    } else {
        lemma_order_upto_sorted(sc, k - 1);
        lemma_order_upto_contents(sc, k - 1);
        assert forall|m: int| 0 <= m < order_upto(sc, k - 1).len() implies #[trigger] order_upto(
            sc,
            k - 1,
        )[m] < k - 1 by {
            assert(order_upto(sc, k - 1).contains(order_upto(sc, k - 1)[m]));
        }
        lemma_insert_ranked_sorted(order_upto(sc, k - 1), k - 1, sc);
    }
}

/// The full sorted order: `sc.len()` indices, each of `0 .. sc.len()`
/// once, sorted by `ranks_before`.
pub proof fn lemma_sorted_order_ensures(sc: Seq<nat>)
    ensures
        sorted_order(sc).len() == sc.len(),
        forall|x: int| sorted_order(sc).contains(x) <==> 0 <= x < sc.len(),
        forall|a: int| 0 <= a < sc.len() ==> 0 <= #[trigger] sorted_order(sc)[a] < sc.len(),
        is_ranked(sorted_order(sc), sc),
{
    lemma_order_upto_contents(sc, sc.len() as int);
    lemma_order_upto_sorted(sc, sc.len() as int);
}

/// Reordering distributes over concatenation of index sequences.
pub proof fn lemma_apply_order_add<T>(xs: Seq<T>, a: Seq<int>, b: Seq<int>)
    ensures
        apply_order(xs, a + b) =~= apply_order(xs, a) + apply_order(xs, b),
{
}

/// A sequence reordered by `insert_ranked(p, j, sc)` holds the
/// elements it had under `p`, plus `xs[j]`.
pub proof fn lemma_apply_insert_ranked_multiset<T>(xs: Seq<T>, p: Seq<int>, j: int, sc: Seq<nat>)
    ensures
        apply_order(xs, insert_ranked(p, j, sc)).to_multiset() == apply_order(
            xs,
            p,
        ).to_multiset().insert(xs[j]),
{
    broadcast use vstd::seq_lib::group_to_multiset_ensures;

    lemma_insert_ranked_split(p, j, sc);
    let ip = insert_pos(p, j, sc);
    assert(p =~= p.take(ip) + p.skip(ip));
    lemma_apply_order_add(xs, p.take(ip), p.skip(ip));
    lemma_apply_order_add(xs, p.take(ip) + seq![j], p.skip(ip));
    lemma_apply_order_add(xs, p.take(ip), seq![j]);
    assert(apply_order(xs, insert_ranked(p, j, sc)) =~= (apply_order(xs, p.take(ip)) + apply_order(
        xs,
        seq![j],
    )) + apply_order(xs, p.skip(ip)));
    assert(apply_order(xs, seq![j]) =~= Seq::empty().push(xs[j]));
    let ta = apply_order(xs, p.take(ip));
    let sa = apply_order(xs, p.skip(ip));
    lemma_multiset_commutative(ta + apply_order(xs, seq![j]), sa);
    lemma_multiset_commutative(ta, apply_order(xs, seq![j]));
    lemma_multiset_commutative(ta, sa);
    assert(Seq::<T>::empty().push(xs[j]).to_multiset() =~= Multiset::<T>::empty().insert(xs[j]));
    assert(apply_order(xs, insert_ranked(p, j, sc)).to_multiset() =~= apply_order(
        xs,
        p,
    ).to_multiset().insert(xs[j]));
}

/// Reordering by the ranked order of the first `k` documents permutes
/// the first `k` elements.
pub proof fn lemma_apply_order_upto_multiset<T>(xs: Seq<T>, sc: Seq<nat>, k: int)
    requires
        0 <= k <= xs.len(),
    ensures
        apply_order(xs, order_upto(sc, k)).to_multiset() == xs.take(k).to_multiset(),
    decreases k,
{
    broadcast use vstd::seq_lib::group_to_multiset_ensures;

    if k == 0 {
        assert(apply_order(xs, order_upto(sc, 0)) =~= Seq::<T>::empty());
        assert(xs.take(0) =~= Seq::<T>::empty());
    } else {
        lemma_apply_order_upto_multiset(xs, sc, k - 1);
        lemma_apply_insert_ranked_multiset(xs, order_upto(sc, k - 1), k - 1, sc);
        assert(xs.take(k) =~= xs.take(k - 1).push(xs[k - 1]));
    }
}

/// The permutation law: reordering by the sorted order keeps exactly
/// the original elements, with multiplicity.
pub proof fn lemma_apply_sorted_order_multiset<T>(xs: Seq<T>, sc: Seq<nat>)
    requires
        sc.len() == xs.len(),
    ensures
        apply_order(xs, sorted_order(sc)).to_multiset() == xs.to_multiset(),
{
    lemma_apply_order_upto_multiset(xs, sc, sc.len() as int);
    assert(xs.take(xs.len() as int) =~= xs);
}

/// When the scores never increase along the original order, the
/// sorted order is the identity: the input is already ranked.
pub proof fn lemma_order_upto_nonincreasing(sc: Seq<nat>, k: int)
    requires
        0 <= k <= sc.len(),
        forall|a: int, b: int| 0 <= a <= b < sc.len() ==> sc[a] >= sc[b],
    ensures
        order_upto(sc, k) =~= ident_order(k),
    decreases k,
{
    if k == 0 {
    } else {
        lemma_order_upto_nonincreasing(sc, k - 1);
        let p = order_upto(sc, k - 1);
        assert forall|m: int| 0 <= m < p.len() implies !(sc[#[trigger] p[m]] < sc[k - 1]) by {
            assert(p[m] == m);
        }
        lemma_insert_ranked_at_end(p, k - 1, sc);
        assert(p.push(k - 1) =~= ident_order(k));
    }
}

/// The identity case of the sorted order, as a single statement.
pub proof fn lemma_sorted_order_nonincreasing(sc: Seq<nat>)
    requires
        forall|a: int, b: int| 0 <= a <= b < sc.len() ==> sc[a] >= sc[b],
    ensures
        sorted_order(sc) =~= ident_order(sc.len() as int),
{
    lemma_order_upto_nonincreasing(sc, sc.len() as int);
}

/// Reordering by the identity changes nothing.
pub proof fn lemma_apply_ident_order<T>(xs: Seq<T>)
    ensures
        apply_order(xs, ident_order(xs.len() as int)) =~= xs,
{
}

/// The scores as mathematical values.
pub open spec fn scores_view(s: Seq<u128>) -> Seq<nat> {
    s.map_values(|x: u128| x as nat)
}

/// Sorts the document indices `0 .. scores.len()` by descending
/// score, stable on ties, by insertion sort.
pub(crate) fn sort_indices(scores: &Vec<u128>) -> (r: Vec<usize>)
    ensures
        r@.len() == scores@.len(),
        forall|k: int|
            0 <= k < r@.len() ==> #[trigger] r@[k] as int == sorted_order(scores_view(scores@))[k],
        forall|k: int| 0 <= k < r@.len() ==> #[trigger] r@[k] < scores@.len(),
{
    let ghost sc = scores_view(scores@);
    let n = scores.len();
    let mut ord: Vec<usize> = Vec::new();
    let mut j: usize = 0;
    while j < n
        invariant
            0 <= j <= n,
            n == scores@.len(),
            sc == scores_view(scores@),
            sc.len() == n,
            ord@.len() == j,
            forall|k: int| 0 <= k < j ==> #[trigger] ord@[k] as int == order_upto(sc, j as int)[k],
            forall|k: int| 0 <= k < j ==> #[trigger] ord@[k] < n,
        decreases n - j,
    {
        let ghost p = order_upto(sc, j as int);
        proof {
            lemma_order_upto_contents(sc, j as int);
        }
        let mut pos: usize = 0;
        while pos < ord.len() && !(scores[ord[pos]] < scores[j])
            invariant
                0 <= pos <= ord.len(),
                j < n,
                n == scores@.len(),
                sc == scores_view(scores@),
                sc.len() == n,
                ord@.len() == j,
                forall|k: int| 0 <= k < j ==> #[trigger] ord@[k] as int == p[k],
                forall|k: int| 0 <= k < j ==> #[trigger] ord@[k] < n,
                p.len() == j,
                forall|k: int| 0 <= k < pos ==> !(sc[#[trigger] p[k]] < sc[j as int]),
            decreases ord.len() - pos,
    {
            proof {
                assert(ord@[pos as int] as int == p[pos as int]);
            }
            pos = pos + 1;
        }
        proof {
            assert(pos < ord@.len() ==> sc[p[pos as int]] < sc[j as int]) by {
                if pos < ord@.len() {
                    assert(ord@[pos as int] as int == p[pos as int]);
                }
            }
            lemma_insert_pos_of_boundary(p, j as int, sc, pos as int);
            lemma_insert_ranked_split(p, j as int, sc);
        }
        ord.insert(pos, j);
        proof {
            let q = p.take(pos as int) + seq![j as int] + p.skip(pos as int);
            assert(order_upto(sc, j + 1) == insert_ranked(p, j as int, sc));
            assert forall|k: int| 0 <= k < j + 1 implies #[trigger] ord@[k] as int == order_upto(
                sc,
                j + 1,
            )[k] by {
                if k < pos {
                    assert(ord@[k] as int == p[k]);
                    assert(q[k] == p[k]);
                } else if k == pos {
                    assert(ord@[k] == j);
                } else {
                    assert(ord@[k] as int == p[k - 1]);
                    assert(q[k] == p[k - 1]);
                }
            }
        }
        j = j + 1;
    }
    proof {
        assert(order_upto(sc, n as int) == sorted_order(sc));
    }
    ord
}

} // verus!
